use vstd::prelude::*;

verus! {

/// What the walk up the directory tree found at one ancestor.
#[derive(Debug, Clone, Copy, PartialEq, Eq)]
pub struct Ancestor {
    /// It holds the configuration subdirectory, with at least one script.
    pub has_scripts: bool,
    /// It declares that the search stops above it.
    pub stops_search: bool,
}

/// Ancestor `i` (0 is the current directory, then each parent in turn)
/// is active: it has scripts and no nearer ancestor stopped the search.
pub open spec fn active_at(anc: Seq<Ancestor>, i: int) -> bool {
    &&& 0 <= i < anc.len()
    &&& anc[i].has_scripts
    &&& forall|j: int| 0 <= j < i ==> !anc[j].stops_search
}

/// The active ancestors among the first `k`, outermost first.
pub open spec fn active_upto(anc: Seq<Ancestor>, k: int) -> Seq<int>
    decreases k,
{
    if k <= 0 {
        seq![]
    } else if active_at(anc, k - 1) {
        seq![k - 1] + active_upto(anc, k - 1)
    } else {
        active_upto(anc, k - 1)
    }
}

/// The ancestors whose configurations are active, outermost first: those
/// with scripts, up to the root or to the first that stops the search.
pub fn active_directories(anc: &Vec<Ancestor>) -> (r: Vec<usize>)
    ensures
        r@.map_values(|i: usize| i as int) == active_upto(anc@, anc@.len() as int),
{
    let mut out: Vec<usize> = Vec::new();
    let mut i: usize = 0;
    let mut stopped = false;
    assert(out@.map_values(|x: usize| x as int) =~= Seq::<int>::empty());
    while i < anc.len()
        invariant
            i <= anc@.len(),
            stopped == exists|j: int| 0 <= j < i && anc@[j].stops_search,
            out@.map_values(|x: usize| x as int) == active_upto(anc@, i as int),
        decreases anc@.len() - i,
    {
        let ghost before = out@;
        if !stopped && anc[i].has_scripts {
            out.insert(0, i);
            assert(out@.map_values(|x: usize| x as int) =~= seq![i as int] + before.map_values(
                |x: usize| x as int,
            ));
        } else if stopped {
            proof {
                let j = choose|j: int| 0 <= j < i && anc@[j].stops_search;
                assert(!active_at(anc@, i as int));
            }
        }
        if anc[i].stops_search {
            stopped = true;
        }
        i += 1;
    }
    out
}

} // verus!
