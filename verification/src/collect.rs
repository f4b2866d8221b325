//! Order-preserving deduplication: the first occurrence of each value is
//! kept, later repeats are dropped.

use vstd::prelude::*;

verus! {

/// `s` with every repeat of an earlier element removed, in order.
pub open spec fn dedup_first<A>(s: Seq<A>) -> Seq<A>
    decreases s.len(),
{
    if s.len() == 0 {
        Seq::empty()
    } else {
        let d = dedup_first(s.drop_last());
        if d.contains(s.last()) {
            d
        } else {
            d.push(s.last())
        }
    }
}

/// The deduplicated sequence holds exactly the values of the sequence.
pub proof fn lemma_dedup_first_contains<A>(s: Seq<A>, x: A)
    ensures
        dedup_first(s).contains(x) <==> s.contains(x),
    decreases s.len(),
{
    if s.len() > 0 {
        lemma_dedup_first_contains(s.drop_last(), x);
        let d = dedup_first(s.drop_last());
        if s.contains(x) && x != s.last() {
            let i = choose|i: int| 0 <= i < s.len() && s[i] == x;
            assert(s.drop_last()[i] == x);
        }
        if d.push(s.last()).contains(x) && x != s.last() {
            let i = choose|i: int| 0 <= i < d.push(s.last()).len() && d.push(s.last())[i] == x;
            assert(d[i] == x);
        }
        if s.drop_last().contains(x) {
            let i = choose|i: int| 0 <= i < s.drop_last().len() && s.drop_last()[i] == x;
            assert(s[i] == x);
        }
        if d.contains(x) {
            let i = choose|i: int| 0 <= i < d.len() && d[i] == x;
            assert(d.push(s.last())[i] == x);
        }
        assert(s[s.len() - 1] == s.last());
        assert(d.push(s.last())[d.len() as int] == s.last());
    }
}

/// No value occurs twice in the deduplicated sequence.
pub proof fn lemma_dedup_first_distinct<A>(s: Seq<A>)
    ensures
        dedup_first(s).no_duplicates(),
    decreases s.len(),
{
    if s.len() > 0 {
        lemma_dedup_first_distinct(s.drop_last());
        let d = dedup_first(s.drop_last());
        if !d.contains(s.last()) {
            assert forall|i: int, j: int|
                0 <= i < d.push(s.last()).len() && 0 <= j < d.push(s.last()).len() && i != j implies
                d.push(s.last())[i] != d.push(s.last())[j] by {
                if i == d.len() {
                    assert(d[j] == d.push(s.last())[j]);
                } else if j == d.len() {
                    assert(d[i] == d.push(s.last())[i]);
                }
            }
        }
    }
}

/// Deduplicating a sequence extended by one value.
pub proof fn lemma_dedup_first_push<A>(s: Seq<A>, x: A)
    ensures
        dedup_first(s.push(x)) == if dedup_first(s).contains(x) {
            dedup_first(s)
        } else {
            dedup_first(s).push(x)
        },
{
    assert(s.push(x).drop_last() =~= s);
}

/// Deduplicates port numbers, keeping the first occurrence of each.
pub fn dedup_ports(ports: &[u16]) -> (r: Vec<u16>)
    ensures
        r@ == dedup_first(ports@),
{
    let mut out: Vec<u16> = Vec::new();
    let mut i: usize = 0;
    while i < ports.len()
        invariant
            i <= ports@.len(),
            out@ == dedup_first(ports@.take(i as int)),
        decreases ports@.len() - i,
    {
        let p = ports[i];
        let mut seen = false;
        let mut j: usize = 0;
        while j < out.len()
            invariant
                j <= out@.len(),
                seen == (exists|k: int| 0 <= k < j && out@[k] == p),
            decreases out@.len() - j,
        {
            if out[j] == p {
                seen = true;
            }
            j = j + 1;
        }
        proof {
            lemma_dedup_first_push(ports@.take(i as int), p);
            assert(ports@.take(i + 1) =~= ports@.take(i as int).push(p));
            if seen {
                let k = choose|k: int| 0 <= k < j && out@[k] == p;
                assert(out@.contains(p));
            }
            if out@.contains(p) {
                let k = choose|k: int| 0 <= k < out@.len() && out@[k] == p;
                assert(seen);
            }
        }
        if !seen {
            out.push(p);
        }
        i = i + 1;
    }
    assert(ports@.take(ports@.len() as int) =~= ports@);
    out
}

/// The text values of a list of strings.
pub open spec fn texts(v: Seq<String>) -> Seq<Seq<char>> {
    v.map_values(|s: String| s@)
}

/// Deduplicates strings by their text, keeping the first occurrence of each.
pub fn dedup_strings(items: Vec<String>) -> (r: Vec<String>)
    ensures
        texts(r@) == dedup_first(texts(items@)),
{
    let mut out: Vec<String> = Vec::new();
    let mut i: usize = 0;
    while i < items.len()
        invariant
            i <= items@.len(),
            texts(out@) == dedup_first(texts(items@).take(i as int)),
        decreases items@.len() - i,
    {
        let s = &items[i];
        let mut seen = false;
        let mut j: usize = 0;
        while j < out.len()
            invariant
                j <= out@.len(),
                seen == (exists|k: int| 0 <= k < j && out@[k]@ == s@),
            decreases out@.len() - j,
        {
            if crate::text::str_eq(out[j].as_str(), s.as_str()) {
                seen = true;
            }
            j = j + 1;
        }
        proof {
            lemma_dedup_first_push(texts(items@).take(i as int), s@);
            assert(texts(items@).take(i + 1) =~= texts(items@).take(i as int).push(s@));
            if seen {
                let k = choose|k: int| 0 <= k < j && out@[k]@ == s@;
                assert(texts(out@)[k] == s@);
                assert(texts(out@).contains(s@));
            }
            if texts(out@).contains(s@) {
                let k = choose|k: int| 0 <= k < texts(out@).len() && texts(out@)[k] == s@;
                assert(out@[k]@ == s@);
            }
        }
        if !seen {
            out.push(s.clone());
            proof {
                assert(texts(out@) =~= texts(out@.drop_last()).push(s@));
            }
        }
        i = i + 1;
    }
    assert(texts(items@).take(items@.len() as int) =~= texts(items@));
    out
}

} // verus!
