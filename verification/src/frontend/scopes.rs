//! The stack of scope frames that scope resolution threads through a tree.
use std::rc::Rc;
use vstd::prelude::*;

verus! {

/// A frame as a map: of two entries for one identifier, the later one counts.
pub open spec fn frame_of(entries: Seq<(Rc<String>, Rc<String>)>) -> Map<Seq<char>, Seq<char>>
    decreases entries.len(),
{
    if entries.len() == 0 {
        Map::empty()
    } else {
        frame_of(entries.drop_last()).insert(entries.last().0@, entries.last().1@)
    }
}

/// The name that `name` resolves to: that of the innermost frame which holds
/// it, or `name` itself where no frame does.
pub open spec fn lookup(scopes: Seq<Map<Seq<char>, Seq<char>>>, name: Seq<char>) -> Seq<char>
    decreases scopes.len(),
{
    if scopes.len() == 0 {
        name
    } else if scopes.last().contains_key(name) {
        scopes.last()[name]
    } else {
        lookup(scopes.drop_last(), name)
    }
}

/// The scope frames that enclose the place a pass has reached, outermost first.
/// A frame maps each surface identifier bound so far to its unique name.
pub struct Scopes {
    frames: Vec<Vec<(Rc<String>, Rc<String>)>>,
}

impl View for Scopes {
    type V = Seq<Map<Seq<char>, Seq<char>>>;

    closed spec fn view(&self) -> Seq<Map<Seq<char>, Seq<char>>> {
        Seq::new(self.frames.len() as nat, |i: int| frame_of(self.frames[i]@))
    }
}

/// Looks `name` up in one frame: the latest entry for it counts.
fn find_in_frame(frame: &Vec<(Rc<String>, Rc<String>)>, name: &Rc<String>) -> (res: Option<
    Rc<String>,
>)
    ensures
        match res {
            Some(unique) => frame_of(frame@).contains_key(name@) && frame_of(frame@)[name@]
                == unique@,
            None => !frame_of(frame@).contains_key(name@),
        },
{
    let mut i: usize = frame.len();
    assert(frame@.subrange(0, i as int) =~= frame@);
    while i > 0
        invariant
            i <= frame.len(),
            frame_of(frame@).contains_key(name@) <==> frame_of(
                frame@.subrange(0, i as int),
            ).contains_key(name@),
            frame_of(frame@).contains_key(name@) ==> frame_of(frame@)[name@] == frame_of(
                frame@.subrange(0, i as int),
            )[name@],
        decreases i,
    {
        i -= 1;
        assert(frame@.subrange(0, i + 1).drop_last() =~= frame@.subrange(0, i as int));
        if *frame[i].0 == **name {
            return Some(frame[i].1.clone());
        }
    }
    None
}

impl Scopes {
    /// No scope is open.
    pub fn new() -> (res: Scopes)
        ensures
            res@ == Seq::<Map<Seq<char>, Seq<char>>>::empty(),
    {
        let res = Scopes { frames: Vec::new() };
        assert(res@ =~= Seq::empty());
        res
    }

    /// How many scopes are open.
    pub fn depth(&self) -> (res: usize)
        ensures
            res == self@.len(),
    {
        self.frames.len()
    }

    /// Opens a scope that binds nothing yet.
    pub fn enter(&mut self)
        ensures
            final(self)@ == old(self)@.push(Map::empty()),
    {
        self.frames.push(Vec::new());
        assert(self@ =~= old(self)@.push(Map::empty()));
    }

    /// Closes the innermost scope.
    pub fn leave(&mut self)
        requires
            old(self)@.len() > 0,
        ensures
            final(self)@ == old(self)@.drop_last(),
    {
        let _ = self.frames.pop();
        assert(self@ =~= old(self)@.drop_last());
    }

    /// Binds `name` to `unique` in the innermost scope.
    pub fn bind(&mut self, name: Rc<String>, unique: Rc<String>)
        requires
            old(self)@.len() > 0,
        ensures
            final(self)@ == old(self)@.drop_last().push(
                old(self)@.last().insert(name@, unique@),
            ),
    {
        let ghost before = self.frames@;
        match self.frames.pop() {
            Some(top) => {
                let mut top = top;
                let ghost entries = top@;
                top.push((name, unique));
                assert(top@.drop_last() =~= entries);
                self.frames.push(top);
                assert(self@ =~= old(self)@.drop_last().push(
                    old(self)@.last().insert(name@, unique@),
                ));
            },
            None => {},
        }
    }

    /// The name that `name` resolves to, innermost scope first.
    pub fn resolve(&self, name: &Rc<String>) -> (res: Rc<String>)
        ensures
            res@ == lookup(self@, name@),
    {
        let mut i: usize = self.frames.len();
        assert(self@.subrange(0, i as int) =~= self@);
        while i > 0
            invariant
                i <= self.frames.len(),
                lookup(self@, name@) == lookup(self@.subrange(0, i as int), name@),
            decreases i,
        {
            i -= 1;
            assert(self@.subrange(0, i + 1).drop_last() =~= self@.subrange(0, i as int));
            assert(self@.subrange(0, i + 1).last() == frame_of(self.frames[i as int]@));
            match find_in_frame(&self.frames[i], name) {
                Some(unique) => {
                    return unique;
                },
                None => {},
            }
        }
        name.clone()
    }
}

} // verus!
