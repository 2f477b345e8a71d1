//! Permission-bit rendering for the long listing: the rwx triples of a
//! mode word.

use vstd::prelude::*;

verus! {

/// Whose permission bits a triple reads.
#[derive(Clone, Copy, Debug)]
pub enum Owner {
    User,
    Group,
    Other,
}

/// The read, write and execute masks of an owner class.
pub open spec fn masks_spec(o: Owner) -> (u32, u32, u32) {
    match o {
        Owner::User => (0o400, 0o200, 0o100),
        Owner::Group => (0o40, 0o20, 0o10),
        Owner::Other => (0o4, 0o2, 0o1),
    }
}

impl Owner {
    /// The read, write and execute masks of this owner class, in order.
    pub fn masks(&self) -> (r: [u32; 3])
        ensures
            r@ == seq![masks_spec(*self).0, masks_spec(*self).1, masks_spec(*self).2],
    {
        let r: [u32; 3] = match self {
            Owner::User => [0o400, 0o200, 0o100],
            Owner::Group => [0o40, 0o20, 0o10],
            Owner::Other => [0o4, 0o2, 0o1],
        };
        proof {
            assert(r@ =~= seq![masks_spec(*self).0, masks_spec(*self).1, masks_spec(*self).2]);
        }
        r
    }
}

/// The rwx triple of `mode` for one owner class.
pub open spec fn triple_spec(mode: u32, o: Owner) -> Seq<char> {
    seq![
        if mode & masks_spec(o).0 == 0 { '-' } else { 'r' },
        if mode & masks_spec(o).1 == 0 { '-' } else { 'w' },
        if mode & masks_spec(o).2 == 0 { '-' } else { 'x' },
    ]
}

/// Render the rwx triple of `mode` for one owner class.
pub fn mk_triple(mode: u32, owner: Owner) -> (r: String)
    ensures
        r@ == triple_spec(mode, owner),
{
    proof {
        reveal_strlit("r");
        reveal_strlit("w");
        reveal_strlit("x");
        reveal_strlit("-");
    }
    let m = owner.masks();
    let mut s = String::new();
    s.append(if mode & m[0] == 0 { "-" } else { "r" });
    s.append(if mode & m[1] == 0 { "-" } else { "w" });
    s.append(if mode & m[2] == 0 { "-" } else { "x" });
    proof {
        assert(s@ =~= triple_spec(mode, owner));
    }
    s
}

/// All nine permission characters of `mode`: user, group, other.
pub open spec fn mode_spec(mode: u32) -> Seq<char> {
    triple_spec(mode, Owner::User) + triple_spec(mode, Owner::Group)
        + triple_spec(mode, Owner::Other)
}

/// Render the nine permission characters of `mode`.
pub fn format_mode(mode: u32) -> (r: String)
    ensures
        r@ == mode_spec(mode),
{
    let mut s = mk_triple(mode, Owner::User);
    let g = mk_triple(mode, Owner::Group);
    s.append(g.as_str());
    let o = mk_triple(mode, Owner::Other);
    s.append(o.as_str());
    s
}

} // verus!
