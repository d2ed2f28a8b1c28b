use vstd::prelude::*;
use crate::animation::AnimationType;
use crate::model::ModelAnimation;

verus! {

/// What a script receives from the host when it fires.
pub struct RenderSource {}

/// A script-channel entry. The callback itself is host-side; the core
/// only carries and schedules it.
#[derive(Clone, Copy, Debug, PartialEq, Eq, Structural)]
pub struct AnimationScript {}

impl AnimationScript {
    pub fn new() -> (r: Self)
        ensures
            r == (AnimationScript {  }),
    {
        AnimationScript {  }
    }

    /// Schedules this script at a time.
    pub fn time(&self, time: u32) -> (r: TimeScript)
        ensures
            r == (TimeScript { time, script: *self }),
    {
        TimeScript { time, script: *self }
    }

    /// The script that does nothing.
    pub fn empty() -> (r: Self)
        ensures
            r == (AnimationScript {  }),
    {
        AnimationScript {  }
    }
}

/// A script scheduled at a time.
#[derive(Clone, Copy, Debug, PartialEq, Eq, Structural)]
pub struct TimeScript {
    pub time: u32,
    pub script: AnimationScript,
}

impl TimeScript {
    /// The empty script scheduled at time zero.
    pub fn empty() -> (r: TimeScript)
        ensures
            r == (TimeScript { time: 0, script: AnimationScript {  } }),
    {
        TimeScript { time: 0, script: AnimationScript {  } }
    }
}

/// An animation's script channel: its name, loop type, length, and the
/// scheduled scripts spanning the animation.
#[derive(Clone, Debug)]
pub struct BlueprintScript {
    pub name: String,
    pub typee: AnimationType,
    pub length: u32,
    pub scripts: Vec<TimeScript>,
}

impl BlueprintScript {
    /// The base script channel of an animation: two empty scripts, one at
    /// time zero and one at the animation's length.
    pub fn from(animation: &ModelAnimation) -> (r: BlueprintScript)
        ensures
            r.name@ == animation.name@,
            r.typee == animation.looptype,
            r.length == animation.length,
            r.scripts@.len() == 2,
            r.scripts@[0] == (TimeScript { time: 0, script: AnimationScript {  } }),
            r.scripts@[1] == (TimeScript { time: animation.length, script: AnimationScript {  } }),
    {
        BlueprintScript {
            name: animation.name.clone(),
            typee: animation.looptype,
            length: animation.length,
            scripts: vec![TimeScript::empty(), AnimationScript::empty().time(animation.length)],
        }
    }
}

} // verus!
