//! Which of the tensors that a model asked for come from the cache of
//! quantized tensors, and which are read from the checkpoint.
use vstd::prelude::*;

use crate::loader::Request;
use crate::qcache::QCache;

verus! {

/// The request is for a quantized tensor with a name in the cache.
pub open spec fn cacheable(r: Request) -> bool {
    r.quant is Some && r.key@.len() > 0
}

/// The cache holds the tensor under its own name, whether it is a whole tensor
/// of the checkpoint or a slice of a stacked one.
pub open spec fn warm(r: Request, cache: QCache) -> bool {
    cacheable(r) && (cache.served() matches Some(names) && names.contains(r.key@))
}

/// Of each request: it is to be served from the cache.
pub fn serve_plan(requests: &Vec<Request>, cache: &QCache) -> (plan: Vec<bool>)
    ensures
        plan.len() == requests.len(),
        forall|i: int| 0 <= i < plan.len() ==> #[trigger] plan[i] == warm(requests[i], *cache),
{
    let mut plan: Vec<bool> = Vec::new();
    let mut i: usize = 0;
    while i < requests.len()
        invariant
            i <= requests.len(),
            plan.len() == i,
            forall|j: int| 0 <= j < i ==> #[trigger] plan[j] == warm(requests[j], *cache),
        decreases requests.len() - i,
    {
        let r = &requests[i];
        let named = r.quant.is_some() && r.key.as_str().unicode_len() > 0;
        plan.push(named && cache.get(&r.key));
        i += 1;
    }
    plan
}

/// Numbers of the requests for which `served` holds no tensor, in order: these,
/// and no others, are read from the checkpoint.
pub open spec fn unserved(served: Seq<bool>, n: int) -> Seq<usize>
    decreases n,
{
    if n <= 0 {
        Seq::empty()
    } else if served[n - 1] {
        unserved(served, n - 1)
    } else {
        unserved(served, n - 1).push((n - 1) as usize)
    }
}

/// The requests that are read from the checkpoint, given which were served.
pub fn reads(served: &Vec<bool>) -> (r: Vec<usize>)
    ensures
        r@ == unserved(served@, served.len() as int),
        forall|i: int| 0 <= i < served.len() ==> (r@.contains(i as usize) <==> !#[trigger] served[i]),
{
    let mut r: Vec<usize> = Vec::new();
    let mut i: usize = 0;
    while i < served.len()
        invariant
            i <= served.len(),
            r@ == unserved(served@, i as int),
        decreases served.len() - i,
    {
        if !served[i] {
            r.push(i);
        }
        i += 1;
    }
    proof {
        assert forall|k: int| 0 <= k < served.len() implies (r@.contains(k as usize)
            <==> !#[trigger] served[k]) by {
            lemma_unserved(served@, served.len() as int, k as usize);
        }
    }
    r
}

/// A number is in the list exactly if nothing was served for it.
proof fn lemma_unserved(served: Seq<bool>, n: int, k: usize)
    requires
        0 <= n <= served.len() <= usize::MAX,
    ensures
        unserved(served, n).contains(k) <==> k < n && !served[k as int],
    decreases n,
{
    if n > 0 {
        lemma_unserved(served, n - 1, k);
        let shorter = unserved(served, n - 1);
        if !served[n - 1] {
            let last = (n - 1) as usize;
            let all = shorter.push(last);
            assert(all[shorter.len() as int] == last);
            if shorter.contains(k) {
                let j = choose|j: int| 0 <= j < shorter.len() && shorter[j] == k;
                assert(all[j] == k);
            }
            if all.contains(k) && k != last {
                let j = choose|j: int| 0 <= j < all.len() && all[j] == k;
                assert(shorter[j] == k);
            }
        }
    }
}

/// Every quantized tensor that `requests` ask for is in the cache.
pub open spec fn complete(requests: Seq<Request>, cache: QCache) -> bool {
    forall|i: int| 0 <= i < requests.len() && (#[trigger] requests[i]).quant is Some ==> warm(
        requests[i],
        cache,
    )
}

/// From a cache that holds every quantized tensor, all of them are served: only
/// tensors that are not quantized are read, and nothing is quantized.
pub proof fn law_warm_load(requests: Seq<Request>, cache: QCache, plan: Seq<bool>, k: usize)
    requires
        requests.len() == plan.len() <= usize::MAX,
        forall|i: int| 0 <= i < plan.len() ==> #[trigger] plan[i] == warm(requests[i], cache),
        complete(requests, cache),
        unserved(plan, plan.len() as int).contains(k),
    ensures
        k < requests.len(),
        requests[k as int].quant is None,
{
    lemma_unserved(plan, plan.len() as int, k);
    assert(plan[k as int] == warm(requests[k as int], cache));
}

/// A cache without a file serves nothing: everything is read.
pub proof fn law_cold_load(r: Request, cache: QCache)
    requires
        cache.served() is None,
    ensures
        !warm(r, cache),
{
}

} // verus!
