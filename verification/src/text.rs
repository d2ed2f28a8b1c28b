use vstd::prelude::*;
use vstd::string::StrSliceExecFns;

verus! {

/// The character views of a list of strings.
pub open spec fn token_views(ts: Seq<String>) -> Seq<Seq<char>> {
    Seq::new(ts.len(), |i: int| ts[i]@)
}

/// Splitting on underscores, as the standard splitter does it: the
/// maximal underscore-free segments, one more than there are underscores
/// (an empty text yields one empty token).
pub open spec fn split_uscore(s: Seq<char>) -> Seq<Seq<char>>
    decreases s.len(),
{
    if s.len() == 0 {
        seq![Seq::<char>::empty()]
    } else if s[0] == '_' {
        seq![Seq::<char>::empty()] + split_uscore(s.subrange(1, s.len() as int))
    } else {
        let rest = split_uscore(s.subrange(1, s.len() as int));
        seq![seq![s[0]] + rest[0]] + rest.drop_first()
    }
}

/// Splitting yields at least one token.
pub proof fn lemma_split_nonempty(s: Seq<char>)
    ensures
        split_uscore(s).len() >= 1,
    decreases s.len(),
{
    if s.len() > 0 {
        lemma_split_nonempty(s.subrange(1, s.len() as int));
    }
}

/// Tokens joined with single underscores between them.
pub open spec fn join_uscore(toks: Seq<Seq<char>>) -> Seq<char>
    decreases toks.len(),
{
    if toks.len() == 0 {
        Seq::empty()
    } else if toks.len() == 1 {
        toks[0]
    } else {
        toks[0] + seq!['_'] + join_uscore(toks.drop_first())
    }
}

/// Joining what splitting produced restores the original text.
pub proof fn lemma_join_split(s: Seq<char>)
    ensures
        join_uscore(split_uscore(s)) == s,
    decreases s.len(),
{
    if s.len() == 0 {
        assert(join_uscore(split_uscore(s)) =~= s);
    } else {
        let rest = s.subrange(1, s.len() as int);
        lemma_join_split(rest);
        lemma_split_nonempty(rest);
        let sp = split_uscore(rest);
        if s[0] == '_' {
            assert(split_uscore(s) == seq![Seq::<char>::empty()] + sp);
            let whole = seq![Seq::<char>::empty()] + sp;
            assert(whole.len() >= 2);
            assert(whole[0] =~= Seq::<char>::empty());
            assert(whole.drop_first() =~= sp);
            assert(join_uscore(whole) == whole[0] + seq!['_'] + join_uscore(sp));
            assert(join_uscore(whole) =~= s);
        } else {
            let head = seq![seq![s[0]] + sp[0]];
            assert(split_uscore(s) == head + sp.drop_first());
            if sp.len() == 1 {
                assert(split_uscore(s).len() == 1);
                assert(split_uscore(s)[0] == seq![s[0]] + sp[0]);
                assert(join_uscore(split_uscore(s)) == seq![s[0]] + sp[0]);
                assert(join_uscore(sp) == sp[0]);
                assert(join_uscore(split_uscore(s)) =~= s);
            } else {
                let whole = head + sp.drop_first();
                assert(whole.len() >= 2);
                assert(whole[0] == seq![s[0]] + sp[0]);
                assert(whole.drop_first() =~= sp.drop_first());
                assert(join_uscore(whole) == whole[0] + seq!['_'] + join_uscore(sp.drop_first()));
                assert(join_uscore(sp) == sp[0] + seq!['_'] + join_uscore(sp.drop_first()));
                assert(join_uscore(whole) =~= seq![s[0]] + join_uscore(sp));
                assert(join_uscore(split_uscore(s)) =~= s);
            }
        }
    }
}

/// Appending one token to a join appends it behind one more underscore.
pub proof fn lemma_join_snoc(toks: Seq<Seq<char>>, t: Seq<char>)
    ensures
        join_uscore(toks.push(t)) == if toks.len() == 0 {
            t
        } else {
            join_uscore(toks) + seq!['_'] + t
        },
    decreases toks.len(),
{
    if toks.len() == 0 {
        assert(toks.push(t).len() == 1);
        assert(toks.push(t)[0] == t);
    } else if toks.len() == 1 {
        let w = toks.push(t);
        assert(w.len() == 2);
        assert(w[0] == toks[0]);
        assert(w.drop_first() =~= seq![t]);
        assert(join_uscore(seq![t]) == seq![t][0]);
        assert(seq![t][0] == t);
        assert(join_uscore(w) == toks[0] + seq!['_'] + t);
        assert(join_uscore(toks) == toks[0]);
    } else {
        let w = toks.push(t);
        assert(w.drop_first() =~= toks.drop_first().push(t));
        lemma_join_snoc(toks.drop_first(), t);
        assert(join_uscore(w) == w[0] + seq!['_'] + join_uscore(toks.drop_first().push(t)));
        assert(w[0] == toks[0]);
        assert(join_uscore(toks.drop_first().push(t)) == join_uscore(toks.drop_first())
            + seq!['_'] + t);
        assert(join_uscore(toks.push(t)) =~= join_uscore(toks) + seq!['_'] + t);
    }
}

/// Whether two string slices hold the same characters.
pub fn str_eq_chars(a: &str, b: &str) -> (r: bool)
    ensures
        r == (a@ == b@),
{
    let la = a.unicode_len();
    let lb = b.unicode_len();
    if la != lb {
        proof {
            assert(a@.len() != b@.len());
        }
        return false;
    }
    let mut i: usize = 0;
    while i < la
        invariant
            la == a@.len(),
            la == b@.len(),
            i <= la,
            forall|j: int| 0 <= j < i ==> a@[j] == b@[j],
        decreases la - i,
    {
        if a.get_char(i) != b.get_char(i) {
            return false;
        }
        i += 1;
    }
    proof {
        assert(a@ =~= b@);
    }
    true
}

/// Splits a string on underscores into its owned tokens.
pub fn split_underscore(raw: &str) -> (r: Vec<String>)
    ensures
        token_views(r@) == split_uscore(raw@),
        r@.len() >= 1,
{
    let n = raw.unicode_len();
    let mut tokens: Vec<String> = Vec::new();
    let mut start: usize = 0;
    let mut p: usize = 0;
    proof {
        assert(raw@.subrange(0, n as int) =~= raw@);
    }
    while p < n
        invariant
            n == raw@.len(),
            start <= p <= n,
            split_uscore(raw@) =~= token_views(tokens@) + prepend_token(
                raw@.subrange(start as int, p as int),
                split_uscore(raw@.subrange(p as int, n as int)),
            ),
        decreases n - p,
    {
        let ghost before = raw@.subrange(p as int, n as int);
        let ghost rest = raw@.subrange(p as int + 1, n as int);
        proof {
            lemma_split_nonempty(rest);
            assert(before.len() > 0);
            assert(before[0] == raw@[p as int]);
            assert(before.subrange(1, before.len() as int) =~= rest);
        }
        let c = raw.get_char(p);
        if c == '_' {
            let tok = raw.substring_char(start, p).to_owned();
            tokens.push(tok);
            proof {
                let sp = split_uscore(rest);
                assert(split_uscore(before) == seq![Seq::<char>::empty()] + sp);
                assert(prepend_token(raw@.subrange(start as int, p as int), split_uscore(before))
                    =~= seq![raw@.subrange(start as int, p as int)] + sp);
                assert(token_views(tokens@) =~= token_views(tokens@.drop_last()) + seq![
                    raw@.subrange(start as int, p as int),
                ]);
                assert(prepend_token(
                    raw@.subrange(p as int + 1, p as int + 1),
                    split_uscore(rest),
                ) =~= sp);
            }
            start = p + 1;
        } else {
            proof {
                let sp = split_uscore(rest);
                let firsts = seq![before[0]] + sp[0];
                let pre = raw@.subrange(start as int, p as int);
                let pre1 = raw@.subrange(start as int, p as int + 1);
                assert(split_uscore(before) == seq![firsts] + sp.drop_first());
                assert(pre + seq![before[0]] =~= pre1);
                assert((seq![firsts] + sp.drop_first())[0] == firsts);
                assert((seq![firsts] + sp.drop_first()).drop_first() =~= sp.drop_first());
                assert(pre + firsts =~= pre1 + sp[0]);
                assert(prepend_token(pre, split_uscore(before)) =~= seq![pre + firsts]
                    + sp.drop_first());
                assert(prepend_token(pre1, sp) =~= seq![pre1 + sp[0]] + sp.drop_first());
                assert(prepend_token(pre, split_uscore(before)) =~= prepend_token(pre1, sp));
            }
        }
        p += 1;
    }
    let tok = raw.substring_char(start, n).to_owned();
    tokens.push(tok);
    proof {
        assert(raw@.subrange(n as int, n as int) =~= Seq::<char>::empty());
        assert(split_uscore(Seq::<char>::empty()).len() == 1);
        assert(prepend_token(
            raw@.subrange(start as int, n as int),
            split_uscore(Seq::<char>::empty()),
        ) =~= seq![raw@.subrange(start as int, n as int)]);
        assert(token_views(tokens@) =~= token_views(tokens@.drop_last()) + seq![
            raw@.subrange(start as int, n as int),
        ]);
        assert(token_views(tokens@) =~= split_uscore(raw@));
    }
    tokens
}

/// A pending token prefix glued onto the front of a split's first token.
pub open spec fn prepend_token(prefix: Seq<char>, sp: Seq<Seq<char>>) -> Seq<Seq<char>>
    recommends
        sp.len() >= 1,
{
    seq![prefix + sp[0]] + sp.drop_first()
}

/// Joins the tokens from `from` onward with underscores.
pub fn join_tokens(tokens: &Vec<String>, from: usize) -> (r: String)
    requires
        from <= tokens@.len(),
    ensures
        r@ == join_uscore(token_views(tokens@).subrange(from as int, tokens@.len() as int)),
{
    let mut s = String::new();
    let mut j: usize = from;
    proof {
        assert(token_views(tokens@).subrange(from as int, from as int) =~= Seq::<
            Seq<char>,
        >::empty());
    }
    while j < tokens.len()
        invariant
            from <= j <= tokens@.len(),
            s@ == join_uscore(token_views(tokens@).subrange(from as int, j as int)),
        decreases tokens@.len() - j,
    {
        let ghost tv = token_views(tokens@);
        let ghost done = tv.subrange(from as int, j as int);
        if j > from {
            s.append("_");
            proof {
                reveal_strlit("_");
                assert("_"@ =~= seq!['_']);
            }
        }
        s.append(tokens[j].as_str());
        proof {
            lemma_join_snoc(done, tv[j as int]);
            assert(tv.subrange(from as int, j as int + 1) =~= done.push(tv[j as int]));
            if j == from {
                assert(join_uscore(done) =~= Seq::<char>::empty());
                assert(s@ =~= join_uscore(done.push(tv[j as int])));
            } else {
                assert(s@ =~= join_uscore(done) + seq!['_'] + tv[j as int]);
            }
        }
        j += 1;
    }
    s
}

} // verus!
