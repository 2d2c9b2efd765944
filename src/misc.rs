use vstd::prelude::*;

use crate::dataset::texts;
use crate::hasher::Hasher;

verus! {

/// Some requested hash functions are not in the registry: those names, in the
/// order requested, and every name the registry offers.
pub struct UnknownHashFunctionError {
    pub unknown: Vec<String>,
    pub available: Vec<String>,
}

/// The requested names that the registry does not offer, in request order.
pub open spec fn unknown_of(requested: Seq<Seq<char>>, available: Seq<Seq<char>>) -> Seq<Seq<char>>
    decreases requested.len(),
{
    if requested.len() == 0 {
        Seq::empty()
    } else {
        let prev = unknown_of(requested.drop_last(), available);
        if available.contains(requested.last()) {
            prev
        } else {
            prev.push(requested.last())
        }
    }
}

/// The positions among the registry's first `n` entries whose name was
/// requested, in registry order.
pub open spec fn selected_of(available: Seq<Seq<char>>, requested: Seq<Seq<char>>, n: nat) -> Seq<
    usize,
>
    decreases n,
{
    if n == 0 {
        Seq::empty()
    } else {
        let prev = selected_of(available, requested, (n - 1) as nat);
        if requested.contains(available[n - 1]) {
            prev.push((n - 1) as usize)
        } else {
            prev
        }
    }
}

/// Whether `x` is among `names`.
pub fn contains_name(names: &Vec<String>, x: &String) -> (r: bool)
    ensures
        r == texts(names@).contains(x@),
{
    let mut i: usize = 0;
    while i < names.len()
        invariant
            i <= names@.len(),
            forall|k: int| 0 <= k < i ==> names@[k]@ != x@,
        decreases names@.len() - i,
    {
        if names[i] == *x {
            proof {
                assert(texts(names@)[i as int] == x@);
            }
            return true;
        }
        i = i + 1;
    }
    proof {
        if texts(names@).contains(x@) {
            let k = choose|k: int| 0 <= k < texts(names@).len() && texts(names@)[k] == x@;
            assert(names@[k]@ == x@);
        }
    }
    false
}

/// Checks every requested name against the registry's names before anything
/// runs. Fails, listing the unknown names and all available ones, where any
/// requested name is unknown; otherwise gives the positions in the registry
/// of the requested functions, in registry order.
pub fn select_hash_functions(available: &Vec<String>, requested: &Vec<String>) -> (r: Result<
    Vec<usize>,
    UnknownHashFunctionError,
>)
    ensures
        match r {
            Ok(sel) => unknown_of(texts(requested@), texts(available@)).len() == 0 && sel@
                == selected_of(texts(available@), texts(requested@), available@.len() as nat),
            Err(e) => {
                &&& unknown_of(texts(requested@), texts(available@)).len() > 0
                &&& texts(e.unknown@) == unknown_of(texts(requested@), texts(available@))
                &&& texts(e.available@) == texts(available@)
            },
        },
{
    let ghost req = texts(requested@);
    let ghost avail = texts(available@);
    let mut unknown: Vec<String> = Vec::new();
    let mut i: usize = 0;
    proof {
        assert(req.take(0) =~= Seq::<Seq<char>>::empty());
        assert(texts(unknown@) =~= Seq::empty());
    }
    while i < requested.len()
        invariant
            i <= requested@.len(),
            req == texts(requested@),
            avail == texts(available@),
            texts(unknown@) == unknown_of(req.take(i as int), avail),
        decreases requested@.len() - i,
    {
        proof {
            assert(req.take(i + 1).drop_last() =~= req.take(i as int));
        }
        if !contains_name(available, &requested[i]) {
            unknown.push(requested[i].clone());
            proof {
                assert(texts(unknown@) =~= unknown_of(req.take(i + 1), avail));
            }
        }
        i = i + 1;
    }
    proof {
        assert(req.take(i as int) =~= req);
    }
    if unknown.len() > 0 {
        return Err(UnknownHashFunctionError { unknown, available: available.clone() });
    }
    let mut sel: Vec<usize> = Vec::new();
    let mut j: usize = 0;
    proof {
        assert(sel@ =~= Seq::<usize>::empty());
    }
    while j < available.len()
        invariant
            j <= available@.len(),
            req == texts(requested@),
            avail == texts(available@),
            sel@ == selected_of(avail, req, j as nat),
        decreases available@.len() - j,
    {
        if contains_name(requested, &available[j]) {
            sel.push(j);
        }
        j = j + 1;
    }
    Ok(sel)
}

/// The names of the registered hash functions, in registry order.
pub fn registry_names<H: Hasher>(functions: &Vec<H>) -> (r: Vec<String>)
    ensures
        texts(r@) == functions@.map_values(|h: H| h.spec_name()),
{
    let mut r: Vec<String> = Vec::new();
    let mut i: usize = 0;
    while i < functions.len()
        invariant
            i <= functions@.len(),
            r@.len() == i,
            forall|k: int| 0 <= k < i ==> #[trigger] r@[k]@ == functions@[k].spec_name(),
        decreases functions@.len() - i,
    {
        r.push(functions[i].name());
        i = i + 1;
    }
    proof {
        assert(texts(r@) =~= functions@.map_values(|h: H| h.spec_name()));
    }
    r
}

} // verus!
