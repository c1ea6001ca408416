//! Chained-scope environment: each frame owns a name-to-value binding list
//! and at most one link to its enclosing frame, fixed at creation.
//!
//! The mathematical model of a frame chain is a sequence of maps from names
//! to values, innermost frame first.  `set` touches only the innermost map;
//! `find` walks outward.

use vstd::prelude::*;

use crate::types::MalType;
use crate::types::Val;
use crate::types::view_val;

verus! {

/// One scope's bindings plus a link to its enclosing scope.
pub struct Env {
    pub outer: Option<Box<Env>>,
    pub data: Vec<(String, MalType)>,
}

/// The map a single binding list denotes; a later entry for the same name
/// would win, though well-formed frames never hold two entries for one name.
pub open spec fn frame_map(d: Seq<(String, MalType)>) -> Map<Seq<char>, Val>
    decreases d.len(),
{
    if d.len() == 0 {
        Map::empty()
    } else {
        frame_map(d.drop_last()).insert(d.last().0@, view_val(d.last().1))
    }
}

/// No name is bound twice within one frame.
pub open spec fn wf_frame(d: Seq<(String, MalType)>) -> bool {
    forall|i: int, j: int| 0 <= i < j < d.len() ==> d[i].0@ != d[j].0@
}

pub open spec fn view_outer(o: Option<Box<Env>>) -> Seq<Map<Seq<char>, Val>>
    decreases o, 0int,
{
    match o {
        Option::None => Seq::empty(),
        Option::Some(b) => view_env(*b),
    }
}

/// The chain of frame maps, innermost first.  Always non-empty.
pub open spec fn view_env(e: Env) -> Seq<Map<Seq<char>, Val>>
    decreases e, 1int,
{
    seq![frame_map(e.data@)] + view_outer(e.outer)
}

pub open spec fn wf_outer(o: Option<Box<Env>>) -> bool
    decreases o, 0int,
{
    match o {
        Option::None => true,
        Option::Some(b) => wf_env(*b),
    }
}

pub open spec fn wf_env(e: Env) -> bool
    decreases e, 1int,
{
    wf_frame(e.data@) && wf_outer(e.outer)
}

/// Name resolution over the mathematical model: the innermost frame that
/// binds the name decides; absence in every frame is absence overall.
pub open spec fn env_lookup(frames: Seq<Map<Seq<char>, Val>>, name: Seq<char>) -> Option<Val>
    decreases frames.len(),
{
    if frames.len() == 0 {
        Option::None
    } else if frames[0].contains_key(name) {
        Option::Some(frames[0][name])
    } else {
        env_lookup(frames.drop_first(), name)
    }
}

/// Binding over the mathematical model: only the innermost map changes.
pub open spec fn env_bind(
    frames: Seq<Map<Seq<char>, Val>>,
    name: Seq<char>,
    v: Val,
) -> Seq<Map<Seq<char>, Val>> {
    if frames.len() == 0 {
        frames
    } else {
        frames.update(0, frames[0].insert(name, v))
    }
}

/// A scan that found the name at entry `i` agrees with the frame's map.
proof fn lemma_frame_found(d: Seq<(String, MalType)>, i: int)
    requires
        wf_frame(d),
        0 <= i < d.len(),
    ensures
        frame_map(d).contains_key(d[i].0@),
        frame_map(d)[d[i].0@] == view_val(d[i].1),
    decreases d.len(),
{
    if i == d.len() - 1 {
    } else {
        lemma_frame_found(d.drop_last(), i);
        assert(d.drop_last()[i] == d[i]);
        assert(d.last().0@ != d[i].0@);
    }
}

/// A scan that found the name nowhere agrees with the frame's map.
proof fn lemma_frame_absent(d: Seq<(String, MalType)>, name: Seq<char>)
    requires
        forall|i: int| 0 <= i < d.len() ==> d[i].0@ != name,
    ensures
        !frame_map(d).contains_key(name),
    decreases d.len(),
{
    if d.len() > 0 {
        assert(forall|i: int| 0 <= i < d.len() - 1 ==> d.drop_last()[i] == d[i]);
        lemma_frame_absent(d.drop_last(), name);
    }
}

/// Character-by-character string equality, proved against the views.
pub fn str_eq(a: &str, b: &str) -> (r: bool)
    ensures
        r == (a@ == b@),
{
    let n = a.unicode_len();
    let m = b.unicode_len();
    if n != m {
        return false;
    }
    let mut i: usize = 0;
    while i < n
        invariant
            n == a@.len(),
            n == b@.len(),
            i <= n,
            forall|k: int| 0 <= k < i ==> a@[k] == b@[k],
        decreases n - i,
    {
        if a.get_char(i) != b.get_char(i) {
            return false;
        }
        i += 1;
    }
    proof {
        assert(a@ =~= b@);
    }
    true
}

impl Env {
    /// A fresh frame with no bindings, enclosed by `outer`.
    pub fn new(outer: Option<Box<Env>>) -> (r: Env)
        requires
            wf_outer(outer),
        ensures
            wf_env(r),
            view_env(r) == seq![Map::<Seq<char>, Val>::empty()] + view_outer(outer),
    {
        let e = Env { outer, data: Vec::new() };
        proof {
            assert(e.data@ =~= Seq::<(String, MalType)>::empty());
        }
        e
    }

    /// Insert or overwrite the binding in this innermost frame only; no
    /// enclosing frame is touched.
    pub fn set(&mut self, key: &String, value: MalType)
        requires
            wf_env(*old(self)),
        ensures
            wf_env(*final(self)),
            view_env(*final(self)) == env_bind(view_env(*old(self)), key@, view_val(value)),
    {
        let mut i: usize = 0;
        let n = self.data.len();
        while i < n
            invariant
                n == self.data.len(),
                i <= n,
                forall|k: int| 0 <= k < i ==> self.data@[k].0@ != key@,
                *self == *old(self),
                wf_env(*old(self)),
            decreases n - i,
        {
            if str_eq(self.data[i].0.as_str(), key.as_str()) {
                let ghost dpre = self.data@;
                self.data.set(i, (key.clone(), value));
                proof {
                    lemma_frame_update(dpre, i as int, self.data@[i as int]);
                    assert(view_env(*self) =~= env_bind(
                        view_env(*old(self)),
                        key@,
                        view_val(value),
                    ));
                }
                return ;
            }
            i += 1;
        }
        let ghost dpre = self.data@;
        self.data.push((key.clone(), value));
        proof {
            assert(self.data@.drop_last() =~= dpre);
            lemma_frame_absent(dpre, key@);
            assert(view_env(*self) =~= env_bind(view_env(*old(self)), key@, view_val(value)));
        }
    }

    /// Look the name up here, else delegate to the enclosing frame; absence
    /// is reported, never defaulted.
    pub fn find(&self, key: &String) -> (r: Option<&MalType>)
        requires
            wf_env(*self),
        ensures
            match r {
                Option::Some(v) => env_lookup(view_env(*self), key@) == Option::Some(view_val(*v)),
                Option::None => env_lookup(view_env(*self), key@) is None,
            },
        decreases *self,
    {
        let mut i: usize = 0;
        let n = self.data.len();
        while i < n
            invariant
                n == self.data.len(),
                i <= n,
                forall|k: int| 0 <= k < i ==> self.data@[k].0@ != key@,
                wf_env(*self),
            decreases n - i,
        {
            if str_eq(self.data[i].0.as_str(), key.as_str()) {
                proof {
                    lemma_frame_found(self.data@, i as int);
                    assert(view_env(*self)[0] == frame_map(self.data@));
                }
                return Some(&self.data[i].1);
            }
            i += 1;
        }
        proof {
            lemma_frame_absent(self.data@, key@);
            assert(view_env(*self)[0] == frame_map(self.data@));
        }
        proof {
            assert(!view_env(*self)[0].contains_key(key@));
            assert(env_lookup(view_env(*self), key@) == env_lookup(
                view_env(*self).drop_first(),
                key@,
            ));
        }
        match &self.outer {
            Option::None => {
                proof {
                    assert(view_env(*self).drop_first() =~= Seq::<Map<Seq<char>, Val>>::empty());
                }
                None
            },
            Option::Some(b) => {
                proof {
                    assert(view_env(*self).drop_first() =~= view_env(**b));
                }
                let r = b.find(key);
                r
            },
        }
    }
}

/// Overwriting the entry that holds a name agrees with inserting into the
/// frame's map.
proof fn lemma_frame_update(d: Seq<(String, MalType)>, i: int, p: (String, MalType))
    requires
        wf_frame(d),
        0 <= i < d.len(),
        p.0@ == d[i].0@,
    ensures
        wf_frame(d.update(i, p)),
        frame_map(d.update(i, p)) == frame_map(d).insert(p.0@, view_val(p.1)),
    decreases d.len(),
{
    let du = d.update(i, p);
    assert(forall|k: int| 0 <= k < d.len() ==> du[k].0@ == if k == i {
        p.0@
    } else {
        d[k].0@
    });
    if i == d.len() - 1 {
        assert(du.drop_last() =~= d.drop_last());
        assert(frame_map(du) == frame_map(d.drop_last()).insert(p.0@, view_val(p.1)));
        lemma_frame_absent_of_wf(d);
        assert(frame_map(d) == frame_map(d.drop_last()).insert(d.last().0@, view_val(d.last().1)));
        assert(frame_map(d).insert(p.0@, view_val(p.1)) =~= frame_map(d.drop_last()).insert(
            p.0@,
            view_val(p.1),
        ));
    } else {
        assert(du.drop_last() =~= d.drop_last().update(i, p));
        assert(d.drop_last()[i] == d[i]);
        lemma_frame_update(d.drop_last(), i, p);
        assert(du.last() == d.last());
        assert(frame_map(du) == frame_map(d.drop_last()).insert(p.0@, view_val(p.1)).insert(
            d.last().0@,
            view_val(d.last().1),
        ));
        assert(d.last().0@ != p.0@);
        assert(frame_map(d.drop_last()).insert(p.0@, view_val(p.1)).insert(
            d.last().0@,
            view_val(d.last().1),
        ) =~= frame_map(d).insert(p.0@, view_val(p.1)));
    }
}

/// Helper: in a well-formed frame the last name is absent from the front.
proof fn lemma_frame_absent_of_wf(d: Seq<(String, MalType)>)
    requires
        wf_frame(d),
        d.len() > 0,
    ensures
        !frame_map(d.drop_last()).contains_key(d.last().0@),
{
    assert(forall|k: int| 0 <= k < d.len() - 1 ==> d.drop_last()[k] == d[k]);
    lemma_frame_absent(d.drop_last(), d.last().0@);
}

} // verus!
