use vstd::prelude::*;
use vstd::string::StringSliceAdditionalSpecFns;

verus! {

/// How a file is opened.
#[derive(Clone, Copy, PartialEq, Eq, Structural, Debug)]
pub struct OpenFlags {
    pub bits: u32,
}

impl OpenFlags {
    pub const RDONLY: u32 = 0;
    pub const WRONLY: u32 = 0x1;
    pub const RDWR: u32 = 0x2;
    pub const CREATE: u32 = 0x200;
    pub const TRUNC: u32 = 0x400;

    /// Whether the file may be read and written: write-only wins over
    /// read-write, and with neither the file is read-only.
    pub fn read_write(&self) -> (r: (bool, bool))
        ensures
            self.bits & Self::WRONLY != 0 ==> r == (false, true),
            self.bits & Self::WRONLY == 0 && self.bits & Self::RDWR != 0 ==> r == (true, true),
            self.bits & Self::WRONLY == 0 && self.bits & Self::RDWR == 0 ==> r == (true, false),
    {
        if self.bits & Self::WRONLY != 0 {
            (false, true)
        } else if self.bits & Self::RDWR != 0 {
            (true, true)
        } else {
            (true, false)
        }
    }
}

pub const SLASH: u8 = 0x2f;

pub const DOT: u8 = 0x2e;

/// The directory stack after the component `comp`: empty and `.` change
/// nothing, `..` leaves the last directory (if any), and any other name
/// enters it.
pub open spec fn push_component(stack: Seq<Seq<u8>>, comp: Seq<u8>) -> Seq<Seq<u8>> {
    if comp.len() == 0 || comp == seq![DOT] {
        stack
    } else if comp == seq![DOT, DOT] {
        if stack.len() > 0 {
            stack.drop_last()
        } else {
            stack
        }
    } else {
        stack.push(comp)
    }
}

/// The directory stack after the rest of a path, `comp` being the
/// component read so far.
pub open spec fn walk(stack: Seq<Seq<u8>>, comp: Seq<u8>, path: Seq<u8>) -> Seq<Seq<u8>>
    decreases path.len(),
{
    if path.len() == 0 {
        push_component(stack, comp)
    } else if path[0] == SLASH {
        walk(push_component(stack, comp), Seq::empty(), path.drop_first())
    } else {
        walk(stack, comp.push(path[0]), path.drop_first())
    }
}

/// The names of `stack` joined by `/`.
pub open spec fn join(stack: Seq<Seq<u8>>) -> Seq<u8>
    decreases stack.len(),
{
    if stack.len() == 0 {
        Seq::empty()
    } else if stack.len() == 1 {
        stack[0]
    } else {
        join(stack.drop_last()) + seq![SLASH] + stack.last()
    }
}

/// The absolute path that `relative` names from directory `base`.
pub open spec fn resolved(relative: Seq<u8>, base: Seq<u8>) -> Seq<u8> {
    let start = if relative.len() > 0 && relative[0] == SLASH {
        Seq::empty()
    } else {
        walk(Seq::empty(), Seq::empty(), base)
    };
    seq![SLASH] + join(walk(start, Seq::empty(), relative))
}

pub open spec fn views(stack: Seq<Vec<u8>>) -> Seq<Seq<u8>> {
    stack.map_values(|v: Vec<u8>| v@)
}

/// Applies one component to `stack`.
fn apply_component(stack: &mut Vec<Vec<u8>>, comp: Vec<u8>)
    ensures
        views(final(stack)@) == push_component(views(old(stack)@), comp@),
{
    let n = comp.len();
    if n == 0 || (n == 1 && comp[0] == DOT) {
        proof {
            if n == 1 {
                assert(comp@ =~= seq![DOT]);
            }
        }
    } else if n == 2 && comp[0] == DOT && comp[1] == DOT {
        proof {
            assert(comp@ =~= seq![DOT, DOT]);
        }
        if stack.len() > 0 {
            let _ = stack.pop();
            proof {
                assert(views(stack@) =~= views(old(stack)@).drop_last());
            }
        }
    } else {
        proof {
            assert(comp@ != seq![DOT]) by {
                if n == 1 {
                    assert(comp@[0] != DOT);
                }
            }
            assert(comp@ != seq![DOT, DOT]) by {
                if n == 2 {
                    assert(comp@[0] != DOT || comp@[1] != DOT);
                }
            }
        }
        stack.push(comp);
        proof {
            assert(views(stack@) =~= views(old(stack)@).push(comp@));
        }
    }
}

/// Applies every component of `path` to `stack`.
fn walk_path(stack: &mut Vec<Vec<u8>>, path: &[u8])
    ensures
        views(final(stack)@) == walk(views(old(stack)@), Seq::empty(), path@),
{
    let mut comp: Vec<u8> = Vec::new();
    let mut i: usize = 0;
    proof {
        assert(path@.subrange(0, path@.len() as int) =~= path@);
        assert(comp@ =~= Seq::<u8>::empty());
    }
    while i < path.len()
        invariant
            i <= path@.len(),
            walk(views(stack@), comp@, path@.subrange(i as int, path@.len() as int)) == walk(
                views(old(stack)@),
                Seq::empty(),
                path@,
            ),
        decreases path@.len() - i,
    {
        let ghost rest = path@.subrange(i as int, path@.len() as int);
        proof {
            assert(rest.drop_first() =~= path@.subrange(i + 1, path@.len() as int));
            assert(rest[0] == path@[i as int]);
        }
        let b = path[i];
        if b == SLASH {
            let done = comp;
            comp = Vec::new();
            apply_component(stack, done);
        } else {
            comp.push(b);
        }
        i = i + 1;
    }
    proof {
        assert(path@.subrange(i as int, path@.len() as int) =~= Seq::<u8>::empty());
    }
    apply_component(stack, comp);
}

/// The absolute path that `relative` names from directory `base`, as
/// bytes: `.` and empty components are dropped, `..` goes up (never above
/// the root), and an absolute `relative` ignores `base`.
pub fn resolve_path(relative: &str, base: &str) -> (r: Vec<u8>)
    ensures
        r@ == resolved(relative.spec_bytes(), base.spec_bytes()),
{
    let rel = relative.as_bytes();
    let mut stack: Vec<Vec<u8>> = Vec::new();
    proof {
        assert(views(stack@) =~= Seq::<Seq<u8>>::empty());
    }
    if !(rel.len() > 0 && rel[0] == SLASH) {
        walk_path(&mut stack, base.as_bytes());
    }
    walk_path(&mut stack, rel);
    let mut result: Vec<u8> = Vec::new();
    result.push(SLASH);
    let mut i: usize = 0;
    while i < stack.len()
        invariant
            i <= stack@.len(),
            result@ == seq![SLASH] + join(views(stack@).subrange(0, i as int)),
        decreases stack@.len() - i,
    {
        let ghost before = result@;
        let ghost vs = views(stack@);
        proof {
            assert(vs.subrange(0, i + 1).drop_last() =~= vs.subrange(0, i as int));
            assert(vs.subrange(0, i + 1).last() == stack@[i as int]@);
        }
        if i > 0 {
            result.push(SLASH);
        }
        let ghost mid = result@;
        let name = &stack[i];
        let mut j: usize = 0;
        while j < name.len()
            invariant
                j <= name@.len(),
                result@ == mid + name@.subrange(0, j as int),
            decreases name@.len() - j,
        {
            result.push(name[j]);
            proof {
                assert(name@.subrange(0, j + 1) =~= name@.subrange(0, j as int).push(name@[j as int]));
            }
            j = j + 1;
        }
        proof {
            assert(name@.subrange(0, name@.len() as int) =~= name@);
            if i == 0 {
                assert(vs.subrange(0, 1) =~= seq![name@]);
                assert(result@ =~= seq![SLASH] + join(vs.subrange(0, 1)));
            } else {
                assert(result@ =~= seq![SLASH] + (join(vs.subrange(0, i as int)) + seq![SLASH] + name@));
            }
        }
        i = i + 1;
    }
    proof {
        assert(views(stack@).subrange(0, stack@.len() as int) =~= views(stack@));
    }
    result
}

} // verus!
