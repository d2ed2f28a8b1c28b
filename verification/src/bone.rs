use vstd::prelude::*;
use crate::text::join_tokens;
use crate::text::join_uscore;
use crate::text::lemma_join_split;
use crate::text::split_underscore;
use crate::text::split_uscore;
use crate::text::str_eq_chars;
use crate::text::token_views;

verus! {

/// A hook identifier the host resolves to its own item-mapping callback;
/// the core only carries it.
#[derive(Clone, Copy, Debug, PartialEq, Eq, Structural)]
pub struct BoneItemMapper;

/// A semantic marker recognized inside a bone's underscore-delimited name:
/// a canonical name, short aliases, and an optional item-mapper hook.
#[derive(Clone, Copy, Debug)]
pub struct BoneTag {
    pub name: &'static str,
    pub tags: &'static [&'static str],
    pub item_mapper: Option<BoneItemMapper>,
}

impl BoneTag {
    pub fn new(
        name: &'static str,
        tags: &'static [&'static str],
        item_mapper: Option<BoneItemMapper>,
    ) -> (t: BoneTag)
        ensures
            t == (BoneTag { name, tags, item_mapper }),
    {
        BoneTag { name, tags, item_mapper }
    }
}

/// No two registered tags share a canonical name.
pub open spec fn unique_tag_names(s: Seq<BoneTag>) -> bool {
    forall|i: int, j: int| 0 <= i < j < s.len() ==> s[i].name@ != s[j].name@
}

/// Whether some registered tag carries the canonical name `name`.
pub open spec fn recognizes(s: Seq<BoneTag>, name: Seq<char>) -> bool {
    exists|i: int| 0 <= i < s.len() && s[i].name@ == name
}

/// The registry of bone tags the parser recognizes, keyed by canonical
/// tag name. Built once at startup and read-only afterwards, so parses may
/// share it freely by reference.
pub struct BoneTagRegistry {
    pub tags: Vec<BoneTag>,
}

impl BoneTagRegistry {
    /// The registry's integrity: tag names stay unique.
    pub open spec fn wf(&self) -> bool {
        unique_tag_names(self.tags@)
    }

    pub fn new() -> (r: BoneTagRegistry)
        ensures
            r.wf(),
            r.tags@.len() == 0,
    {
        BoneTagRegistry { tags: Vec::new() }
    }

    /// Inserts a tag, overwriting any tag already registered under the
    /// same canonical name.
    pub fn register(&mut self, tag: BoneTag)
        requires
            old(self).wf(),
        ensures
            final(self).wf(),
            forall|t: BoneTag|
                #![trigger final(self).tags@.contains(t)]
                #![trigger old(self).tags@.contains(t)]
                final(self).tags@.contains(t) <==> (t == tag || (old(self).tags@.contains(t)
                    && t.name@ != tag.name@)),
            final(self).tags@.len() == old(self).tags@.len() + (if recognizes(
                old(self).tags@,
                tag.name@,
            ) {
                0int
            } else {
                1int
            }),
    {
        let n = self.tags.len();
        let mut i: usize = 0;
        while i < n
            invariant
                n == self.tags@.len(),
                i <= n,
                self.wf(),
                self == old(self),
                forall|j: int| 0 <= j < i ==> self.tags@[j].name@ != tag.name@,
            decreases n - i,
        {
            if str_eq_chars(self.tags[i].name, tag.name) {
                let ghost s0 = self.tags@;
                self.tags.set(i, tag);
                proof {
                    let s1 = self.tags@;
                    assert(s1 == s0.update(i as int, tag));
                    assert(recognizes(s0, tag.name@)) by {
                        assert(s0[i as int].name@ == tag.name@);
                    }
                    assert forall|t: BoneTag|
                        s1.contains(t) <==> (t == tag || (s0.contains(t) && t.name@
                            != tag.name@)) by {
                        if s1.contains(t) {
                            let k = choose|k: int| 0 <= k < s1.len() && s1[k] == t;
                            if k != i {
                                assert(s0[k] == t);
                                assert(s0[i as int].name@ == tag.name@);
                                if t.name@ == tag.name@ {
                                    assert(false);
                                }
                            }
                        }
                        if t == tag {
                            assert(s1[i as int] == t);
                        }
                        if s0.contains(t) && t.name@ != tag.name@ {
                            let k = choose|k: int| 0 <= k < s0.len() && s0[k] == t;
                            assert(k != i);
                            assert(s1[k] == t);
                        }
                    }
                    assert forall|p: int, q: int|
                        0 <= p < q < s1.len() implies s1[p].name@ != s1[q].name@ by {
                        if p != i && q != i {
                            assert(s1[p] == s0[p] && s1[q] == s0[q]);
                        } else if p == i {
                            assert(s0[q].name@ != s0[i as int].name@);
                        } else {
                            assert(s0[p].name@ != s0[i as int].name@);
                        }
                    }
                }
                return ;
            }
            i += 1;
        }
        let ghost s0 = self.tags@;
        self.tags.push(tag);
        proof {
            let s1 = self.tags@;
            assert(!recognizes(s0, tag.name@)) by {
                if recognizes(s0, tag.name@) {
                    let k = choose|k: int| 0 <= k < s0.len() && s0[k].name@ == tag.name@;
                    assert(false);
                }
            }
            assert forall|t: BoneTag|
                s1.contains(t) <==> (t == tag || (s0.contains(t) && t.name@ != tag.name@)) by {
                if s1.contains(t) {
                    let k = choose|k: int| 0 <= k < s1.len() && s1[k] == t;
                    if k < s0.len() {
                        assert(s0[k] == t);
                        assert(s0[k].name@ != tag.name@);
                    } else {
                        assert(t == tag);
                    }
                }
                if t == tag {
                    assert(s1[s1.len() - 1] == t);
                }
                if s0.contains(t) && t.name@ != tag.name@ {
                    let k = choose|k: int| 0 <= k < s0.len() && s0[k] == t;
                    assert(s1[k] == t);
                }
            }
            assert forall|p: int, q: int|
                0 <= p < q < s1.len() implies s1[p].name@ != s1[q].name@ by {
                if q == s1.len() - 1 {
                    assert(s1[p] == s0[p]);
                    assert(s0[p].name@ != tag.name@);
                } else {
                    assert(s1[p] == s0[p] && s1[q] == s0[q]);
                }
            }
        }
    }

    /// Looks a canonical tag name up; absence is an answer, not a failure.
    pub fn get(&self, name: &str) -> (r: Option<&BoneTag>)
        requires
            self.wf(),
        ensures
            match r {
                Some(t) => self.tags@.contains(*t) && t.name@ == name@,
                None => !recognizes(self.tags@, name@),
            },
    {
        let n = self.tags.len();
        let mut i: usize = 0;
        while i < n
            invariant
                n == self.tags@.len(),
                i <= n,
                forall|j: int| 0 <= j < i ==> self.tags@[j].name@ != name@,
            decreases n - i,
        {
            if str_eq_chars(self.tags[i].name, name) {
                proof {
                    assert(self.tags@.contains(self.tags@[i as int]));
                }
                return Some(&self.tags[i]);
            }
            i += 1;
        }
        None
    }

    /// Tokenizes a bone identifier: underscore-split tokens are consumed
    /// left to right while the registry recognizes them, the consumed
    /// tokens become the tag set, and the remaining tokens joined with
    /// underscores become the base name. A name of fewer than two tokens,
    /// or one whose every token is recognized, keeps the whole raw string
    /// as its base name.
    pub fn parse(&self, raw_name: &str) -> (b: BoneName)
        requires
            self.wf(),
        ensures
            is_parsed(self.tags@, raw_name@, b),
    {
        let tokens = split_underscore(raw_name);
        if tokens.len() < 2 {
            return BoneName {
                tags: Vec::new(),
                name: raw_name.to_owned(),
                raw_name: raw_name.to_owned(),
            };
        }
        let ghost toks = token_views(tokens@);
        let mut set: Vec<BoneTag> = Vec::new();
        let mut i: usize = 0;
        while i < tokens.len()
            invariant
                self.wf(),
                toks == token_views(tokens@),
                toks == split_uscore(raw_name@),
                toks.len() == tokens@.len(),
                toks.len() >= 2,
                i <= toks.len(),
                forall|j: int| 0 <= j < i ==> recognizes(self.tags@, toks[j]),
                unique_tag_names(set@),
                forall|t: BoneTag|
                    #![trigger set@.contains(t)]
                    #![trigger self.tags@.contains(t)]
                    set@.contains(t) <==> (self.tags@.contains(t) && exists|j: int|
                        0 <= j < i && toks[j] == t.name@),
            decreases toks.len() - i,
        {
            match self.get(tokens[i].as_str()) {
                Some(tag_ref) => {
                    let tag = *tag_ref;
                    proof {
                        assert(tag.name@ == toks[i as int]);
                        assert(recognizes(self.tags@, toks[i as int])) by {
                            let k = choose|k: int|
                                0 <= k < self.tags@.len() && self.tags@[k] == tag;
                            assert(self.tags@[k].name@ == toks[i as int]);
                        }
                    }
                    let mut present = false;
                    let m = set.len();
                    let mut j: usize = 0;
                    while j < m
                        invariant
                            m == set@.len(),
                            j <= m,
                            present == exists|q: int| 0 <= q < j && set@[q].name@ == tag.name@,
                        decreases m - j,
                    {
                        if str_eq_chars(set[j].name, tag.name) {
                            present = true;
                            proof {
                                assert(set@[j as int].name@ == tag.name@);
                            }
                        }
                        j += 1;
                    }
                    let ghost set0 = set@;
                    if !present {
                        set.push(tag);
                        proof {
                            assert forall|p: int, q: int|
                                0 <= p < q < set@.len() implies set@[p].name@
                                != set@[q].name@ by {
                                if q == set@.len() - 1 {
                                    assert(set@[p] == set0[p]);
                                    assert(set0.contains(set0[p]));
                                } else {
                                    assert(set@[p] == set0[p] && set@[q] == set0[q]);
                                }
                            }
                        }
                    }
                    proof {
                        assert forall|t: BoneTag|
                            set@.contains(t) <==> (self.tags@.contains(t) && exists|j2: int|
                                0 <= j2 < i + 1 && toks[j2] == t.name@) by {
                            if set@.contains(t) {
                                let k = choose|k: int| 0 <= k < set@.len() && set@[k] == t;
                                if k < set0.len() {
                                    assert(set0[k] == t);
                                    assert(set0.contains(t));
                                    let j2 = choose|j2: int|
                                        0 <= j2 < i && toks[j2] == t.name@;
                                    assert(0 <= j2 < i + 1 && toks[j2] == t.name@);
                                } else {
                                    assert(t == tag);
                                    assert(toks[i as int] == t.name@);
                                }
                            }
                            if self.tags@.contains(t) && (exists|j2: int|
                                0 <= j2 < i + 1 && toks[j2] == t.name@) {
                                let j2 = choose|j2: int| 0 <= j2 < i + 1 && toks[j2] == t.name@;
                                if j2 < i {
                                    assert(set0.contains(t));
                                    let k = choose|k: int| 0 <= k < set0.len() && set0[k] == t;
                                    assert(set@[k] == t);
                                    assert(set@.contains(t));
                                } else {
                                    assert(t.name@ == tag.name@);
                                    if t != tag {
                                        let ka = choose|k: int|
                                            0 <= k < self.tags@.len() && self.tags@[k] == t;
                                        let kb = choose|k: int|
                                            0 <= k < self.tags@.len() && self.tags@[k] == tag;
                                        assert(self.tags@[ka].name@ == self.tags@[kb].name@);
                                        assert(ka != kb);
                                        assert(false);
                                    }
                                    if present {
                                        let q = choose|q: int|
                                            0 <= q < set0.len() && set0[q].name@ == tag.name@;
                                        assert(set0.contains(set0[q]));
                                        let jq = choose|jq: int|
                                            0 <= jq < i && toks[jq] == set0[q].name@;
                                        if set0[q] != tag {
                                            let ka = choose|k: int|
                                                0 <= k < self.tags@.len() && self.tags@[k]
                                                == set0[q];
                                            let kb = choose|k: int|
                                                0 <= k < self.tags@.len() && self.tags@[k]
                                                == tag;
                                            assert(self.tags@[ka].name@
                                                == self.tags@[kb].name@);
                                            assert(ka != kb);
                                            assert(false);
                                        }
                                        assert(set@.contains(tag));
                                    } else {
                                        assert(set@[set@.len() - 1] == tag);
                                        assert(set@.contains(tag));
                                    }
                                }
                            }
                        }
                    }
                }
                None => {
                    let name = join_tokens(&tokens, i);
                    proof {
                        lemma_consumed_unique(self.tags@, toks, i as int);
                        assert(toks == split_uscore(raw_name@));
                        assert(toks.len() == tokens@.len());
                        assert(tokens@.len() >= 2);
                    }
                    return BoneName { tags: set, name, raw_name: raw_name.to_owned() };
                },
            }
            i += 1;
        }
        proof {
            lemma_consumed_unique(self.tags@, toks, toks.len() as int);
        }
        BoneName { tags: set, name: raw_name.to_owned(), raw_name: raw_name.to_owned() }
    }
}

/// How many leading tokens the registry recognizes, scanning from `j`.
pub open spec fn consumed_from(tags: Seq<BoneTag>, toks: Seq<Seq<char>>, j: int) -> int
    recommends
        0 <= j <= toks.len(),
    decreases toks.len() - j,
{
    if j < 0 || j >= toks.len() {
        toks.len() as int
    } else if !recognizes(tags, toks[j]) {
        j
    } else {
        consumed_from(tags, toks, j + 1)
    }
}

/// The number of consumed tokens a left-to-right scan stops at is the
/// first unrecognized position.
proof fn lemma_consumed_from_unique(tags: Seq<BoneTag>, toks: Seq<Seq<char>>, j: int, c: int)
    requires
        0 <= j <= c <= toks.len(),
        forall|m: int| j <= m < c ==> recognizes(tags, toks[m]),
        c == toks.len() || !recognizes(tags, toks[c]),
    ensures
        c == consumed_from(tags, toks, j),
    decreases c - j,
{
    if j < c {
        lemma_consumed_from_unique(tags, toks, j + 1, c);
    }
}

/// As [`lemma_consumed_from_unique`], scanning from the start.
proof fn lemma_consumed_unique(tags: Seq<BoneTag>, toks: Seq<Seq<char>>, c: int)
    requires
        0 <= c <= toks.len(),
        forall|m: int| 0 <= m < c ==> recognizes(tags, toks[m]),
        c == toks.len() || !recognizes(tags, toks[c]),
    ensures
        c == consumed_from(tags, toks, 0),
{
    lemma_consumed_from_unique(tags, toks, 0, c);
}

/// The parser's whole contract, over the registry's tags and the raw
/// identifier: the tag set is exactly the recognized tags named by the
/// consumed prefix, and the base name is the unconsumed remainder joined
/// with underscores — or the raw string itself for a short or fully
/// recognized identifier.
pub open spec fn is_parsed(tags: Seq<BoneTag>, raw: Seq<char>, b: BoneName) -> bool {
    let toks = split_uscore(raw);
    let c = consumed_from(tags, toks, 0);
    &&& b.raw_name@ == raw
    &&& unique_tag_names(b.tags@)
    &&& (toks.len() < 2 ==> b.tags@.len() == 0 && b.name@ == raw)
    &&& (toks.len() >= 2 ==> forall|t: BoneTag|
        #![trigger b.tags@.contains(t)]
        #![trigger tags.contains(t)]
        b.tags@.contains(t) <==> (tags.contains(t) && exists|j: int|
            0 <= j < c && toks[j] == t.name@))
    &&& (toks.len() >= 2 && c == toks.len() ==> b.name@ == raw)
    &&& (toks.len() >= 2 && c < toks.len() ==> b.name@ == join_uscore(
        toks.subrange(c, toks.len() as int),
    ))
}

/// The base name parsing resolves for a raw identifier, stated directly:
/// the unconsumed tokens joined back with underscores, or the raw string
/// itself for a short or fully recognized identifier.
pub open spec fn parsed_base_name(tags: Seq<BoneTag>, raw: Seq<char>) -> Seq<char> {
    let toks = split_uscore(raw);
    let c = consumed_from(tags, toks, 0);
    if toks.len() < 2 || c == toks.len() {
        raw
    } else {
        join_uscore(toks.subrange(c, toks.len() as int))
    }
}

/// A parse result's base name is [`parsed_base_name`], and its raw string
/// is the identifier itself.
pub proof fn lemma_parsed_key(tags: Seq<BoneTag>, raw: Seq<char>, b: BoneName)
    requires
        is_parsed(tags, raw, b),
    ensures
        b.name@ == parsed_base_name(tags, raw),
        b.raw_name@ == raw,
{
    let toks = split_uscore(raw);
    lemma_consumed_bounds(tags, toks, 0);
    let c = consumed_from(tags, toks, 0);
    if toks.len() < 2 {
    } else if c == toks.len() {
    } else {
        assert(b.name@ == join_uscore(toks.subrange(c, toks.len() as int)));
    }
}

/// A parse result's key is determined by the identifier: the pair of its
/// resolved base name and the raw string.
pub proof fn lemma_parsed_key_unique(tags: Seq<BoneTag>, raw: Seq<char>, b: BoneName)
    requires
        is_parsed(tags, raw, b),
    ensures
        (b.name@, b.raw_name@) == ((parsed_base_name(tags, raw), raw)),
{
    lemma_parsed_key(tags, raw, b);
}

/// The consumed count stays within the token range.
proof fn lemma_consumed_bounds(tags: Seq<BoneTag>, toks: Seq<Seq<char>>, j: int)
    requires
        0 <= j <= toks.len(),
    ensures
        j <= consumed_from(tags, toks, j) <= toks.len(),
    decreases toks.len() - j,
{
    if j < toks.len() && recognizes(tags, toks[j]) {
        lemma_consumed_bounds(tags, toks, j + 1);
    }
}

/// A parsed bone identifier: the recognized tag set, the resolved base
/// name, and the original raw string. Identity rests on the base name and
/// the raw string alone; the tag set is excluded.
#[derive(Clone, Debug)]
pub struct BoneName {
    pub name: String,
    pub raw_name: String,
    pub tags: Vec<BoneTag>,
}

impl PartialEq for BoneName {
    fn eq(&self, other: &Self) -> (r: bool) {
        self.name == other.name && self.raw_name == other.raw_name
    }
}

impl vstd::std_specs::cmp::PartialEqSpecImpl for BoneName {
    open spec fn obeys_eq_spec() -> bool {
        true
    }

    open spec fn eq_spec(&self, other: &Self) -> bool {
        self.name@ == other.name@ && self.raw_name@ == other.raw_name@
    }
}

impl Eq for BoneName {

}

impl BoneName {
    pub fn new(tags: Vec<BoneTag>, name: String, raw_name: String) -> (b: BoneName)
        ensures
            b == (BoneName { tags, name, raw_name }),
    {
        BoneName { tags, name, raw_name }
    }
}

/// Law: an identifier of fewer than two tokens, or one whose first token
/// the registry does not recognize, parses to itself — an empty tag set
/// and the raw string as base name.
pub proof fn lemma_parse_unchanged(tags: Seq<BoneTag>, raw: Seq<char>, b: BoneName)
    requires
        is_parsed(tags, raw, b),
        split_uscore(raw).len() < 2 || !recognizes(tags, split_uscore(raw)[0]),
    ensures
        b.tags@.len() == 0,
        b.name@ == raw,
        b.raw_name@ == raw,
{
    let toks = split_uscore(raw);
    if toks.len() >= 2 {
        let c = consumed_from(tags, toks, 0);
        assert(c == 0);
        assert(b.tags@.len() == 0) by {
            if b.tags@.len() > 0 {
                assert(b.tags@.contains(b.tags@[0]));
                assert(tags.contains(b.tags@[0]) && exists|j: int|
                    0 <= j < c && toks[j] == b.tags@[0].name@);
                let j = choose|j: int| 0 <= j < c && toks[j] == b.tags@[0].name@;
                assert(false);
            }
        }
        assert(toks.subrange(0, toks.len() as int) =~= toks);
        lemma_join_split(raw);
    }
}

/// A registry loaded with the built-in bone tags, ready for parsing.
pub fn get_registry() -> (r: BoneTagRegistry)
    ensures
        r.wf(),
        r.tags@.len() == 5,
        recognizes(r.tags@, "head"@),
        recognizes(r.tags@, "head_with_children"@),
        recognizes(r.tags@, "hitbox"@),
        recognizes(r.tags@, "seat"@),
        recognizes(r.tags@, "sub_seat"@),
{
    let mut registry = BoneTagRegistry::new();
    initialize_bone_tags(&mut registry);
    registry
}

/// Registers the fixed built-in tag set: head, head-with-children,
/// hitbox, seat and sub-seat.
pub fn initialize_bone_tags(registry: &mut BoneTagRegistry)
    requires
        old(registry).wf(),
        old(registry).tags@.len() == 0,
    ensures
        final(registry).wf(),
        final(registry).tags@.len() == 5,
        recognizes(final(registry).tags@, "head"@),
        recognizes(final(registry).tags@, "head_with_children"@),
        recognizes(final(registry).tags@, "hitbox"@),
        recognizes(final(registry).tags@, "seat"@),
        recognizes(final(registry).tags@, "sub_seat"@),
{
    proof {
        reveal_strlit("head");
        reveal_strlit("head_with_children");
        reveal_strlit("hitbox");
        reveal_strlit("seat");
        reveal_strlit("sub_seat");
    }
    let head = BoneTag::new("head", &["h"], None);
    let head_with_children = BoneTag::new("head_with_children", &["hi"], None);
    let hitbox = BoneTag::new("hitbox", &["b", "ob"], None);
    let seat = BoneTag::new("seat", &["p"], None);
    let sub_seat = BoneTag::new("sub_seat", &["sp"], None);
    registry.register(head);
    proof {
        reveal_strlit("head");
        reveal_strlit("head_with_children");
        reveal_strlit("hitbox");
        reveal_strlit("seat");
        reveal_strlit("sub_seat");
        assert(head.name@ == "head"@);
        assert(head_with_children.name@ == "head_with_children"@);
        assert(hitbox.name@ == "hitbox"@);
        assert(seat.name@ == "seat"@);
        assert(sub_seat.name@ == "sub_seat"@);
        assert(registry.tags@.len() == 1);
        assert(registry.tags@.contains(head));
        assert(forall|t: BoneTag| registry.tags@.contains(t) ==> t == head);
        assert(!recognizes(registry.tags@, head_with_children.name@)) by {
            reveal_strlit("head");
            reveal_strlit("head_with_children");
            reveal_strlit("hitbox");
            reveal_strlit("seat");
            reveal_strlit("sub_seat");
            if recognizes(registry.tags@, head_with_children.name@) {
                let k = choose|k: int|
                    0 <= k < registry.tags@.len() && registry.tags@[k].name@ == head_with_children.name@;
                assert(registry.tags@.contains(registry.tags@[k]));
                assert(false);
            }
        }
    }
    registry.register(head_with_children);
    proof {
        reveal_strlit("head");
        reveal_strlit("head_with_children");
        reveal_strlit("hitbox");
        reveal_strlit("seat");
        reveal_strlit("sub_seat");
        assert(head.name@ == "head"@);
        assert(head_with_children.name@ == "head_with_children"@);
        assert(hitbox.name@ == "hitbox"@);
        assert(seat.name@ == "seat"@);
        assert(sub_seat.name@ == "sub_seat"@);
        assert(registry.tags@.len() == 2);
        assert(registry.tags@.contains(head));
        assert(registry.tags@.contains(head_with_children));
        assert(forall|t: BoneTag| registry.tags@.contains(t) ==> t == head || t == head_with_children);
        assert(!recognizes(registry.tags@, hitbox.name@)) by {
            reveal_strlit("head");
            reveal_strlit("head_with_children");
            reveal_strlit("hitbox");
            reveal_strlit("seat");
            reveal_strlit("sub_seat");
            if recognizes(registry.tags@, hitbox.name@) {
                let k = choose|k: int|
                    0 <= k < registry.tags@.len() && registry.tags@[k].name@ == hitbox.name@;
                assert(registry.tags@.contains(registry.tags@[k]));
                assert(false);
            }
        }
    }
    registry.register(hitbox);
    proof {
        reveal_strlit("head");
        reveal_strlit("head_with_children");
        reveal_strlit("hitbox");
        reveal_strlit("seat");
        reveal_strlit("sub_seat");
        assert(head.name@ == "head"@);
        assert(head_with_children.name@ == "head_with_children"@);
        assert(hitbox.name@ == "hitbox"@);
        assert(seat.name@ == "seat"@);
        assert(sub_seat.name@ == "sub_seat"@);
        assert(registry.tags@.len() == 3);
        assert(registry.tags@.contains(head));
        assert(registry.tags@.contains(head_with_children));
        assert(registry.tags@.contains(hitbox));
        assert(forall|t: BoneTag| registry.tags@.contains(t) ==> t == head || t == head_with_children || t == hitbox);
        assert(!recognizes(registry.tags@, seat.name@)) by {
            reveal_strlit("head");
            reveal_strlit("seat");
            assert("head"@[0] == 'h');
            assert("seat"@[0] == 's');
            assert("head"@ != "seat"@);
            reveal_strlit("head_with_children");
            reveal_strlit("hitbox");
            reveal_strlit("seat");
            reveal_strlit("sub_seat");
            if recognizes(registry.tags@, seat.name@) {
                let k = choose|k: int|
                    0 <= k < registry.tags@.len() && registry.tags@[k].name@ == seat.name@;
                assert(registry.tags@.contains(registry.tags@[k]));
                assert(false);
            }
        }
    }
    registry.register(seat);
    proof {
        reveal_strlit("head");
        reveal_strlit("head_with_children");
        reveal_strlit("hitbox");
        reveal_strlit("seat");
        reveal_strlit("sub_seat");
        assert(head.name@ == "head"@);
        assert(head_with_children.name@ == "head_with_children"@);
        assert(hitbox.name@ == "hitbox"@);
        assert(seat.name@ == "seat"@);
        assert(sub_seat.name@ == "sub_seat"@);
        assert(registry.tags@.len() == 4);
        assert(registry.tags@.contains(head));
        assert(registry.tags@.contains(head_with_children));
        assert(registry.tags@.contains(hitbox));
        assert(registry.tags@.contains(seat));
        assert(forall|t: BoneTag| registry.tags@.contains(t) ==> t == head || t == head_with_children || t == hitbox || t == seat);
        assert(!recognizes(registry.tags@, sub_seat.name@)) by {
            reveal_strlit("head");
            reveal_strlit("head_with_children");
            reveal_strlit("hitbox");
            reveal_strlit("seat");
            reveal_strlit("sub_seat");
            if recognizes(registry.tags@, sub_seat.name@) {
                let k = choose|k: int|
                    0 <= k < registry.tags@.len() && registry.tags@[k].name@ == sub_seat.name@;
                assert(registry.tags@.contains(registry.tags@[k]));
                assert(false);
            }
        }
    }
    registry.register(sub_seat);
    proof {
        reveal_strlit("head");
        reveal_strlit("head_with_children");
        reveal_strlit("hitbox");
        reveal_strlit("seat");
        reveal_strlit("sub_seat");
        assert(head.name@ == "head"@);
        assert(head_with_children.name@ == "head_with_children"@);
        assert(hitbox.name@ == "hitbox"@);
        assert(seat.name@ == "seat"@);
        assert(sub_seat.name@ == "sub_seat"@);
        assert(registry.tags@.len() == 5);
        assert(recognizes(registry.tags@, "head"@)) by {
            assert(registry.tags@.contains(head));
            let k = choose|k: int| 0 <= k < registry.tags@.len() && registry.tags@[k] == head;
            assert(registry.tags@[k].name@ == "head"@);
        }
        assert(recognizes(registry.tags@, "head_with_children"@)) by {
            assert(registry.tags@.contains(head_with_children));
            let k = choose|k: int| 0 <= k < registry.tags@.len() && registry.tags@[k] == head_with_children;
            assert(registry.tags@[k].name@ == "head_with_children"@);
        }
        assert(recognizes(registry.tags@, "hitbox"@)) by {
            assert(registry.tags@.contains(hitbox));
            let k = choose|k: int| 0 <= k < registry.tags@.len() && registry.tags@[k] == hitbox;
            assert(registry.tags@[k].name@ == "hitbox"@);
        }
        assert(recognizes(registry.tags@, "seat"@)) by {
            assert(registry.tags@.contains(seat));
            let k = choose|k: int| 0 <= k < registry.tags@.len() && registry.tags@[k] == seat;
            assert(registry.tags@[k].name@ == "seat"@);
        }
        assert(recognizes(registry.tags@, "sub_seat"@)) by {
            assert(registry.tags@.contains(sub_seat));
            let k = choose|k: int| 0 <= k < registry.tags@.len() && registry.tags@[k] == sub_seat;
            assert(registry.tags@[k].name@ == "sub_seat"@);
        }
    }
}

} // verus!
