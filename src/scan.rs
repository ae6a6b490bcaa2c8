use vstd::prelude::*;

verus! {

/// `n` occurs in `h` starting at byte `i`.
pub open spec fn occurs_at(h: Seq<u8>, n: Seq<u8>, i: int) -> bool {
    0 <= i && i + n.len() <= h.len() && h.subrange(i, i + n.len()) == n
}

/// The first position at or after `from` where `n` occurs in `h`.
pub open spec fn find_spec(h: Seq<u8>, n: Seq<u8>, from: int) -> Option<int>
    decreases h.len() + 1 - from,
{
    if from < 0 || from + n.len() > h.len() {
        None
    } else if occurs_at(h, n, from) {
        Some(from)
    } else {
        find_spec(h, n, from + 1)
    }
}

/// What `find_spec` returns is the leftmost occurrence from `from` on.
pub proof fn lemma_find_is_leftmost(h: Seq<u8>, n: Seq<u8>, from: int)
    requires
        from >= 0,
    ensures
        match find_spec(h, n, from) {
            Some(i) => from <= i && occurs_at(h, n, i) && forall|j: int|
                from <= j < i ==> !occurs_at(h, n, j),
            None => forall|j: int| from <= j ==> !occurs_at(h, n, j),
        },
    decreases h.len() + 1 - from,
{
    if from + n.len() > h.len() {
    } else if occurs_at(h, n, from) {
    } else {
        lemma_find_is_leftmost(h, n, from + 1);
        assert forall|j: int| from <= j && j < from + 1 implies !occurs_at(h, n, j) by {}
    }
}

/// Whether `n` occurs in `h` at `i`.
pub fn occurs_at_exec(h: &[u8], n: &[u8], i: usize) -> (r: bool)
    ensures
        r == occurs_at(h@, n@, i as int),
{
    if n.len() > h.len() || i > h.len() - n.len() {
        return false;
    }
    let mut k: usize = 0;
    while k < n.len()
        invariant
            k <= n.len(),
            i + n.len() <= h.len(),
            forall|m: int| 0 <= m < k ==> h@[i + m] == n@[m],
        decreases n.len() - k,
    {
        if h[i + k] != n[k] {
            assert(h@.subrange(i as int, i + n.len())[k as int] != n@[k as int]);
            return false;
        }
        k = k + 1;
    }
    assert(h@.subrange(i as int, i + n.len()) =~= n@);
    true
}

/// The first position at or after `from` where `n` occurs in `h`.
pub fn find_from(h: &[u8], n: &[u8], from: usize) -> (r: Option<usize>)
    ensures
        r matches Some(i) ==> find_spec(h@, n@, from as int) == Some(i as int),
        r is None ==> find_spec(h@, n@, from as int) is None,
{
    if n.len() > h.len() || from > h.len() - n.len() {
        return None;
    }
    let last: usize = h.len() - n.len();
    let mut i: usize = from;
    loop
        invariant
            from <= i <= last,
            last == h.len() - n.len(),
            find_spec(h@, n@, from as int) == find_spec(h@, n@, i as int),
        decreases last - i,
    {
        if occurs_at_exec(h, n, i) {
            return Some(i);
        }
        if i == last {
            assert(find_spec(h@, n@, i + 1) is None);
            return None;
        }
        i = i + 1;
    }
}

} // verus!
