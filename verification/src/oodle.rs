//! Where the Oodle library is looked for.

use vstd::prelude::*;

verus! {

/// The file name of the library.
pub fn library_name() -> (r: &'static str)
    ensures
        r@ == "oo2core_9_win64.dll"@,
{
    "oo2core_9_win64.dll"
}

pub open spec fn if_any<P>(place: Option<P>) -> Seq<P> {
    match place {
        Some(p) => seq![p],
        None => Seq::empty(),
    }
}

pub open spec fn places<P>(explicit: Option<P>, beside: Option<P>, bare: P) -> Seq<P> {
    if_any(explicit) + if_any(beside) + seq![bare]
}

/// The places to look at, in order: the one that was asked for, the one beside the program, and
/// wherever the system finds a library of that bare name.
pub fn candidates<P>(explicit: Option<P>, beside: Option<P>, bare: P) -> (r: Vec<P>)
    ensures
        r@ == places(explicit, beside, bare),
{
    let mut places: Vec<P> = Vec::new();
    if let Some(p) = explicit {
        places.push(p);
    }
    if let Some(p) = beside {
        places.push(p);
    }
    places.push(bare);
    assert(places@ =~= if_any(explicit) + if_any(beside) + seq![bare]);
    places
}

/// The bare name always comes last, what was asked for always first, and what is beside the
/// program between them; a place that is not known takes none.
pub proof fn law_places<P>(explicit: Option<P>, beside: Option<P>, bare: P)
    ensures
        ({
            let r = places(explicit, beside, bare);
            &&& r.last() == bare
            &&& explicit is Some ==> r[0] == explicit->0
            &&& beside is Some ==> r[r.len() - 2] == beside->0
            &&& r.len() == 1 + (if explicit is Some {
                1int
            } else {
                0
            }) + if beside is Some {
                1int
            } else {
                0
            }
        }),
{
}

} // verus!
