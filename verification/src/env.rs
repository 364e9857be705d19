use crate::built_ins::{divide_fn, minus_fn, multiply_fn, plus_fn};
use crate::symbol::Symbol;
use crate::types::{clone_value, Builtin, MalError, MalType, SpecError, SpecValue};
use vstd::prelude::*;

verus! {

/// The model of one scope frame: name/value bindings in the order they
/// were written, the latest binding of a name being the one in force.
pub type SpecFrame = Seq<(Seq<char>, SpecValue)>;

/// The model of a frame, binding by binding.
pub open spec fn frame_view(f: Seq<(String, MalType)>) -> SpecFrame {
    Seq::new(f.len(), |i: int| (f[i].0@, f[i].1@))
}

/// The model of a stack of frames, frame by frame.
pub open spec fn frames_view(outs: Seq<Vec<(String, MalType)>>) -> Seq<SpecFrame> {
    Seq::new(outs.len(), |i: int| frame_view(outs[i]@))
}

/// The binding of `name` in one frame: the latest write wins.
pub open spec fn frame_lookup(f: SpecFrame, name: Seq<char>) -> Option<SpecValue>
    decreases f.len(),
{
    if f.len() == 0 {
        None
    } else if f.last().0 == name {
        Some(f.last().1)
    } else {
        frame_lookup(f.drop_last(), name)
    }
}

/// The binding of `name` in a stack of frames: the innermost frame is
/// searched first, then outward frame by frame.
pub open spec fn env_lookup(frames: Seq<SpecFrame>, name: Seq<char>) -> Option<SpecValue>
    decreases frames.len(),
{
    if frames.len() == 0 {
        None
    } else {
        match frame_lookup(frames.last(), name) {
            Some(v) => Some(v),
            None => env_lookup(frames.drop_last(), name),
        }
    }
}

/// The model of binding `name` to `val` in the innermost frame.
pub open spec fn env_set(env: Seq<SpecFrame>, name: Seq<char>, val: SpecValue) -> Seq<SpecFrame> {
    env.drop_last().push(env.last().push((name, val)))
}

/// The model of closing the innermost frame; the root frame stays.
pub open spec fn env_pop(env: Seq<SpecFrame>) -> Seq<SpecFrame> {
    if env.len() > 1 {
        env.drop_last()
    } else {
        env
    }
}

/// An executable lookup result agrees with its model.
pub open spec fn option_matches(r: Option<MalType>, s: Option<SpecValue>) -> bool {
    match (r, s) {
        (Some(v), Some(sv)) => v@ == sv,
        (None, None) => true,
        _ => false,
    }
}

/// The root frame after the built-ins are registered, in registration
/// order.
pub open spec fn repl_frame() -> SpecFrame {
    seq![
        ("+"@, SpecValue::Function("+"@, Builtin::Plus)),
        ("-"@, SpecValue::Function("-"@, Builtin::Minus)),
        ("*"@, SpecValue::Function("*"@, Builtin::Multiply)),
        ("/"@, SpecValue::Function("/"@, Builtin::Divide)),
    ]
}

/// A chained symbol table: an innermost frame and the stack of outer
/// frames, outermost first. Its model is the full stack, innermost last.
pub struct Env {
    data: Vec<(String, MalType)>,
    outer: Vec<Vec<(String, MalType)>>,
}

impl View for Env {
    type V = Seq<SpecFrame>;

    closed spec fn view(&self) -> Seq<SpecFrame> {
        frames_view(self.outer@).push(frame_view(self.data@))
    }
}

/// Finds `key` in one frame, scanning the latest bindings first.
fn frame_find(f: &Vec<(String, MalType)>, key: &Symbol) -> (r: Option<MalType>)
    ensures
        option_matches(r, frame_lookup(frame_view(f@), key@)),
{
    let ghost fv = frame_view(f@);
    let mut i: usize = f.len();
    proof {
        assert(fv.subrange(0, i as int) =~= fv);
    }
    while i > 0
        invariant
            i <= f.len(),
            fv == frame_view(f@),
            frame_lookup(fv, key@) == frame_lookup(fv.subrange(0, i as int), key@),
        decreases i,
    {
        i = i - 1;
        let ghost prefix = fv.subrange(0, i as int + 1);
        proof {
            assert(prefix.last() == fv[i as int]);
            assert(prefix.drop_last() =~= fv.subrange(0, i as int));
        }
        if f[i].0 == key.name {
            return Some(clone_value(&f[i].1));
        }
    }
    proof {
        assert(fv.subrange(0, 0) =~= Seq::<(Seq<char>, SpecValue)>::empty());
    }
    None
}

impl Env {
    /// A fresh environment: a single empty scope frame.
    pub fn new() -> (r: Self)
        ensures
            r@.len() == 1,
            r@[0] == Seq::<(Seq<char>, SpecValue)>::empty(),
    {
        let r = Env { data: Vec::new(), outer: Vec::new() };
        proof {
            assert(r@[0] =~= Seq::<(Seq<char>, SpecValue)>::empty());
        }
        r
    }

    /// Looks `key` up, innermost frame first; a hit returns a copy of the
    /// bound value.
    pub fn find(&self, key: &Symbol) -> (r: Option<MalType>)
        ensures
            option_matches(r, env_lookup(self@, key@)),
    {
        match frame_find(&self.data, key) {
            Some(v) => {
                proof {
                    assert(self@.last() == frame_view(self.data@));
                }
                Some(v)
            },
            None => {
                proof {
                    assert(self@.last() == frame_view(self.data@));
                    assert(self@.drop_last() =~= frames_view(self.outer@));
                }
                let mut i: usize = self.outer.len();
                proof {
                    assert(frames_view(self.outer@).subrange(0, i as int) =~= frames_view(
                        self.outer@,
                    ));
                    assert(env_lookup(self@, key@) == env_lookup(
                        frames_view(self.outer@),
                        key@,
                    ));
                }
                while i > 0
                    invariant
                        i <= self.outer@.len(),
                        env_lookup(self@, key@) == env_lookup(frames_view(self.outer@), key@),
                        env_lookup(frames_view(self.outer@), key@) == env_lookup(
                            frames_view(self.outer@).subrange(0, i as int),
                            key@,
                        ),
                    decreases i,
                {
                    i = i - 1;
                    let ghost fs = frames_view(self.outer@);
                    let ghost prefix = fs.subrange(0, i as int + 1);
                    proof {
                        assert(prefix.last() == fs[i as int]);
                        assert(prefix.drop_last() =~= fs.subrange(0, i as int));
                    }
                    match frame_find(&self.outer[i], key) {
                        Some(v) => {
                            return Some(v);
                        },
                        None => {
                        },
                    }
                }
                proof {
                    let fs = frames_view(self.outer@);
                    assert(fs.subrange(0, 0) =~= Seq::<SpecFrame>::empty());
                }
                None
            },
        }
    }

    /// Resolves `key` or reports exactly which name has no binding.
    pub fn get(&self, key: &Symbol) -> (r: Result<MalType, MalError>)
        ensures
            match env_lookup(self@, key@) {
                Some(sv) => r matches Ok(v) && v@ == sv,
                None => r matches Err(e) && e@ == SpecError::Resolve(key@),
            },
    {
        match self.find(key) {
            Some(v) => Ok(v),
            None => Err(MalError::Resolve(key.get_name())),
        }
    }

    /// Binds `key` to `val` in the innermost frame and returns the bound
    /// value; the frames outside the innermost one are untouched.
    pub fn set(&mut self, key: Symbol, val: MalType) -> (r: MalType)
        ensures
            final(self)@ == env_set(old(self)@, key@, val@),
            r@ == val@,
    {
        let copy = clone_value(&val);
        self.data.push((key.get_name(), copy));
        proof {
            assert(frame_view(self.data@) =~= frame_view(old(self).data@).push((key@, val@)));
            assert(frames_view(self.outer@).push(frame_view(self.data@)) =~= old(
                self,
            )@.drop_last().push(old(self)@.last().push((key@, val@))));
        }
        val
    }

    /// Opens a new innermost scope frame.
    pub fn push_layer(&mut self)
        ensures
            final(self)@ == old(self)@.push(Seq::<(Seq<char>, SpecValue)>::empty()),
    {
        let mut prev: Vec<(String, MalType)> = Vec::new();
        core::mem::swap(&mut self.data, &mut prev);
        self.outer.push(prev);
        proof {
            assert(frame_view(self.data@) =~= Seq::<(Seq<char>, SpecValue)>::empty());
            assert(frames_view(self.outer@) =~= frames_view(old(self).outer@).push(
                frame_view(old(self).data@),
            ));
            assert(frames_view(self.outer@).push(frame_view(self.data@)) =~= old(self)@.push(
                Seq::<(Seq<char>, SpecValue)>::empty(),
            ));
        }
    }

    /// Closes the innermost scope frame; the root frame is never popped.
    pub fn pop_layer(&mut self)
        ensures
            final(self)@ == env_pop(old(self)@),
    {
        match self.outer.pop() {
            Some(next_layer) => {
                self.data = next_layer;
                proof {
                    assert(frames_view(self.outer@) =~= frames_view(old(self).outer@).drop_last());
                    assert(frames_view(self.outer@).push(frame_view(self.data@)) =~= old(
                        self,
                    )@.drop_last());
                }
            },
            None => {
                proof {
                    assert(self@ == old(self)@);
                }
            },
        }
    }

    /// A fresh environment whose root frame holds the four arithmetic
    /// built-ins under their operator names.
    pub fn repl() -> (r: Self)
        ensures
            r@ =~= seq![repl_frame()],
    {
        let mut env = Env::new();
        let plus = plus_fn();
        env.set(plus.name.clone(), MalType::Function(plus));
        let minus = minus_fn();
        env.set(minus.name.clone(), MalType::Function(minus));
        let multiply = multiply_fn();
        env.set(multiply.name.clone(), MalType::Function(multiply));
        let divide = divide_fn();
        env.set(divide.name.clone(), MalType::Function(divide));
        proof {
            assert(env@.last() =~= repl_frame());
            assert(env@ =~= seq![repl_frame()]);
        }
        env
    }
}

/// An environment always holds at least its root frame: the stack of
/// scope frames is never empty, whatever sequence of operations built it.
pub proof fn lemma_env_nonempty(e: &Env)
    ensures
        e@.len() >= 1,
{
}

impl Default for Env {
    /// The same single empty frame `new` builds.
    fn default() -> (r: Self)
        ensures
            r@.len() == 1,
            r@[0] == Seq::<(Seq<char>, SpecValue)>::empty(),
    {
        Env::new()
    }
}

} // verus!
