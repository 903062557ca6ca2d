//! Which form XObjects the ink scan of a page may enter: a form is walked at
//! most once per page, and forms nest at most `MAX_FORM_DEPTH` deep, so that a
//! form that draws itself, directly or through others, cannot recurse forever.
use std::collections::HashSet;
use vstd::prelude::*;

verus! {

broadcast use vstd::std_specs::hash::group_hash_axioms;

/// Forms nested this deep or deeper are not entered.
pub const MAX_FORM_DEPTH: usize = 8;

/// The hash key of an object id: its number and generation side by side.
pub open spec fn form_key(id: (u32, u16)) -> u64 {
    (id.0 as int * 65536 + id.1 as int) as u64
}

/// Whether a form with the id `id`, met at nesting depth `depth`, is entered
/// when the forms `seen` were entered before.
pub open spec fn admits(seen: Set<(u32, u16)>, id: (u32, u16), depth: nat) -> bool {
    depth < MAX_FORM_DEPTH && !seen.contains(id)
}

/// The forms entered once a form `id` at depth `depth` has been met.
pub open spec fn after(seen: Set<(u32, u16)>, id: (u32, u16), depth: nat) -> Set<(u32, u16)> {
    if depth < MAX_FORM_DEPTH {
        seen.insert(id)
    } else {
        seen
    }
}

proof fn lemma_form_key_injective(a: (u32, u16), b: (u32, u16))
    ensures
        form_key(a) == form_key(b) ==> a == b,
{
    let ka = a.0 as int * 65536 + a.1 as int;
    let kb = b.0 as int * 65536 + b.1 as int;
    assert(0 <= ka < 0x1_0000_0000_0000) by (nonlinear_arith)
        requires
            ka == a.0 as int * 65536 + a.1 as int,
            0 <= a.0 < 0x1_0000_0000,
            0 <= a.1 < 65536,
    ;
    assert(0 <= kb < 0x1_0000_0000_0000) by (nonlinear_arith)
        requires
            kb == b.0 as int * 65536 + b.1 as int,
            0 <= b.0 < 0x1_0000_0000,
            0 <= b.1 < 65536,
    ;
    if form_key(a) == form_key(b) {
        assert(ka == kb);
        assert(a.0 == b.0 && a.1 == b.1) by (nonlinear_arith)
            requires
                a.0 as int * 65536 + a.1 as int == b.0 as int * 65536 + b.1 as int,
                0 <= a.1 < 65536,
                0 <= b.1 < 65536,
        ;
    }
}

/// The forms entered so far on a page.
pub struct FormGuard {
    seen: HashSet<u64>,
}

impl View for FormGuard {
    type V = Set<(u32, u16)>;

    closed spec fn view(&self) -> Set<(u32, u16)> {
        Set::new(|id: (u32, u16)| self.seen@.contains(form_key(id)))
    }
}

impl FormGuard {
    /// No form entered yet.
    pub fn new() -> (r: Self)
        ensures
            r@ == Set::<(u32, u16)>::empty(),
    {
        let r = FormGuard { seen: HashSet::new() };
        assert(r@ =~= Set::<(u32, u16)>::empty());
        r
    }

    /// Meets the form with the object id `id` (number, generation) at nesting
    /// depth `depth`: `true` when it is to be walked, that is when the depth is
    /// below `MAX_FORM_DEPTH` and the form was not entered before; below that
    /// depth the form counts as entered from now on.
    pub fn enter(&mut self, id: (u32, u16), depth: usize) -> (r: bool)
        ensures
            r == admits(old(self)@, id, depth as nat),
            final(self)@ == after(old(self)@, id, depth as nat),
    {
        if depth >= MAX_FORM_DEPTH {
            return false;
        }
        let ghost before = self@;
        let (n, g) = id;
        let key: u64 = n as u64 * 65536 + g as u64;
        assert(key == form_key(id));
        let fresh = self.seen.insert(key);
        proof {
            assert forall|x: (u32, u16)| #[trigger] before.contains(x) == (old(self).seen@.contains(
                form_key(x),
            )) by {}
            lemma_form_key_injective(id, id);
            assert(fresh == !before.contains(id));
            assert forall|x: (u32, u16)| #[trigger] self@.contains(x) == before.insert(id).contains(
                x,
            ) by {
                lemma_form_key_injective(x, id);
            }
            assert(self@ =~= before.insert(id));
        }
        fresh
    }
}

// ----- laws of the guard -----

/// A form is walked at most once per page: once entered, the same form is
/// refused at any depth.
pub proof fn law_form_entered_once(seen: Set<(u32, u16)>, id: (u32, u16), d1: nat, d2: nat)
    requires
        admits(seen, id, d1),
    ensures
        !admits(after(seen, id, d1), id, d2),
{
}

/// Meeting a form changes nothing about the other forms: each other form is
/// entered after it exactly when it was before.
pub proof fn law_other_forms_unaffected(
    seen: Set<(u32, u16)>,
    id: (u32, u16),
    other: (u32, u16),
    d: nat,
)
    requires
        other != id,
    ensures
        after(seen, id, d).contains(other) == seen.contains(other),
{
}

} // verus!
