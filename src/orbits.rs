//! Orbit maps: which body orbits which, and how deep each body sits.
use vstd::prelude::*;
use vstd::string::StringSliceAdditionalSpecFns;

use crate::text::{field_bounds, split_fields, text_lines, ParseError};

verus! {

/// `body` orbits `parent`.
pub struct Orbit {
    pub body: Vec<u8>,
    pub parent: Vec<u8>,
}

impl View for Orbit {
    type V = (Seq<u8>, Seq<u8>);

    open spec fn view(&self) -> (Seq<u8>, Seq<u8>) {
        (self.body@, self.parent@)
    }
}

/// The map's entries as (body, parent) pairs, in order.
pub open spec fn entries(map: Seq<Orbit>) -> Seq<(Seq<u8>, Seq<u8>)> {
    map.map_values(|o: Orbit| o@)
}

/// The entry that a line `PARENT)BODY` spells.
pub open spec fn orbit_of_line(l: Seq<u8>) -> Option<(Seq<u8>, Seq<u8>)> {
    let f = split_fields(l, 41);
    if f.len() == 2 {
        Some((f[1], f[0]))
    } else {
        None
    }
}

/// The entries that the lines spell, where every line spells one.
pub open spec fn orbit_entries(lines: Seq<Seq<u8>>) -> Option<Seq<(Seq<u8>, Seq<u8>)>>
    decreases lines.len(),
{
    if lines.len() == 0 {
        Some(Seq::empty())
    } else {
        match (orbit_entries(lines.drop_last()), orbit_of_line(lines.last())) {
            (Some(es), Some(e)) => Some(es.push(e)),
            _ => None,
        }
    }
}

/// The parent of `body`: the last entry for it wins.
pub open spec fn parent_in(es: Seq<(Seq<u8>, Seq<u8>)>, body: Seq<u8>) -> Option<Seq<u8>>
    decreases es.len(),
{
    if es.len() == 0 {
        None
    } else if es.last().0 == body {
        Some(es.last().1)
    } else {
        parent_in(es.drop_last(), body)
    }
}

/// The ancestors of `body`, nearest first, following at most `fuel`
/// parents; `None` when the chain is longer.
pub open spec fn ancestors(es: Seq<(Seq<u8>, Seq<u8>)>, body: Seq<u8>, fuel: nat) -> Option<
    Seq<Seq<u8>>,
>
    decreases fuel,
{
    match parent_in(es, body) {
        None => Some(Seq::empty()),
        Some(p) => if fuel == 0 {
            None
        } else {
            match ancestors(es, p, (fuel - 1) as nat) {
                Some(rest) => Some(seq![p] + rest),
                None => None,
            }
        },
    }
}

/// The ancestors of `body` in a map; `None` when the chain is longer than the
/// map has entries, which only a cycle allows.
pub open spec fn chain_of(es: Seq<(Seq<u8>, Seq<u8>)>, body: Seq<u8>) -> Option<Seq<Seq<u8>>> {
    ancestors(es, body, es.len())
}

/// Whether entry `i` is the last one for its body.
pub open spec fn is_last_entry(es: Seq<(Seq<u8>, Seq<u8>)>, i: int) -> bool {
    forall|j: int| i < j < es.len() ==> #[trigger] es[j].0 != es[i].0
}

/// The sum of the depths of the bodies of the last entries among the first `n`.
pub open spec fn depth_sum(es: Seq<(Seq<u8>, Seq<u8>)>, n: nat) -> Option<int>
    decreases n,
{
    if n == 0 {
        Some(0)
    } else {
        match depth_sum(es, (n - 1) as nat) {
            None => None,
            Some(t) => if !is_last_entry(es, n - 1) {
                Some(t)
            } else {
                match chain_of(es, es[n - 1].0) {
                    Some(c) => Some(t + c.len()),
                    None => None,
                }
            },
        }
    }
}

/// A line that spells no entry spoils the whole map.
proof fn lemma_entries_error_stays(lines: Seq<Seq<u8>>, n: int)
    requires
        0 <= n <= lines.len(),
        orbit_entries(lines.subrange(0, n)) is None,
    ensures
        orbit_entries(lines) is None,
    decreases lines.len() - n,
{
    if n < lines.len() {
        assert(lines.subrange(0, n + 1).drop_last() =~= lines.subrange(0, n));
        lemma_entries_error_stays(lines, n + 1);
    } else {
        assert(lines.subrange(0, n) =~= lines);
    }
}

/// A copy of `b[start..end]`.
fn bytes_of(b: &[u8], start: usize, end: usize) -> (r: Vec<u8>)
    requires
        start <= end <= b@.len(),
    ensures
        r@ == b@.subrange(start as int, end as int),
{
    let mut r: Vec<u8> = Vec::new();
    let mut i: usize = start;
    while i < end
        invariant
            start <= i <= end <= b@.len(),
            r@ == b@.subrange(start as int, i as int),
        decreases end - i,
    {
        r.push(b[i]);
        assert(r@ =~= b@.subrange(start as int, i + 1));
        i = i + 1;
    }
    r
}

fn bytes_equal(a: &[u8], b: &[u8]) -> (r: bool)
    ensures
        r == (a@ == b@),
{
    if a.len() != b.len() {
        return false;
    }
    let mut i: usize = 0;
    while i < a.len()
        invariant
            a@.len() == b@.len(),
            i <= a@.len(),
            forall|k: int| 0 <= k < i ==> a@[k] == b@[k],
        decreases a@.len() - i,
    {
        if a[i] != b[i] {
            return false;
        }
        i = i + 1;
    }
    assert(a@ =~= b@);
    true
}

/// The orbit map that `map_data` spells, one `PARENT)BODY` line per entry.
pub fn star_map(map_data: &str) -> (r: Result<Vec<Orbit>, ParseError>)
    ensures
        match orbit_entries(text_lines(map_data.spec_bytes())) {
            Some(es) => (r is Ok) && entries(r->Ok_0@) == es,
            None => r == Err::<Vec<Orbit>, ParseError>(ParseError::MalformedLine),
        },
{
    let b = map_data.as_bytes();
    let lines = field_bounds(b, 0, b.len(), 10);
    let ghost f = split_fields(b@.subrange(0, b@.len() as int), 10);
    assert(b@.subrange(0, b@.len() as int) =~= b@);
    proof {
        crate::text::lemma_split_fields_nonempty(b@, 10);
    }
    let last = lines.len() - 1;
    let n = if lines[last].0 == lines[last].1 {
        last
    } else {
        lines.len()
    };
    assert(b@.subrange(lines@[last as int].0 as int, lines@[last as int].1 as int).len() == f.last().len());
    let ghost ls = text_lines(b@);
    assert(ls.len() == n);
    let mut map: Vec<Orbit> = Vec::new();
    let mut i: usize = 0;
    while i < n
        invariant
            b@ == map_data.spec_bytes(),
            ls == text_lines(b@),
            n == ls.len(),
            n <= lines@.len(),
            i <= n,
            forall|k: int|
                0 <= k < n ==> 0 <= (#[trigger] lines@[k]).0 <= lines@[k].1 <= b@.len()
                    && b@.subrange(lines@[k].0 as int, lines@[k].1 as int) == ls[k],
            orbit_entries(ls.subrange(0, i as int)) == Some(entries(map@)),
        decreases n - i,
    {
        let (ls_start, ls_end) = lines[i];
        let parts = field_bounds(b, ls_start, ls_end, 41);
        assert(ls.subrange(0, i + 1).drop_last() =~= ls.subrange(0, i as int));
        assert(ls.subrange(0, i + 1).last() == ls[i as int]);
        if parts.len() != 2 {
            proof {
                lemma_entries_error_stays(ls, i as int + 1);
            }
            assert(ls.subrange(0, n as int) =~= ls);
            return Err(ParseError::MalformedLine);
        }
        let body = bytes_of(b, parts[1].0, parts[1].1);
        let parent = bytes_of(b, parts[0].0, parts[0].1);
        let ghost prev = map@;
        map.push(Orbit { body, parent });
        assert(entries(map@) =~= entries(prev).push((map@.last().body@, map@.last().parent@)));
        i = i + 1;
    }
    assert(ls.subrange(0, n as int) =~= ls);
    Ok(map)
}

/// The index of the entry that gives the parent of `body`: the last entry for it.
pub fn find_parent(map: &Vec<Orbit>, body: &[u8]) -> (r: Option<usize>)
    ensures
        match parent_in(entries(map@), body@) {
            None => r is None,
            Some(p) => (r is Some) && r->Some_0 < map@.len() && map@[r->Some_0 as int].parent@ == p,
        },
{
    let ghost es = entries(map@);
    let mut i: usize = map.len();
    assert(es.subrange(0, i as int) =~= es);
    while i > 0
        invariant
            es == entries(map@),
            i <= map@.len(),
            parent_in(es, body@) == parent_in(es.subrange(0, i as int), body@),
        decreases i,
    {
        let ghost pre = es.subrange(0, i as int);
        assert(pre.drop_last() =~= es.subrange(0, i - 1));
        assert(pre.last() == map@[i - 1]@);
        if bytes_equal(map[i - 1].body.as_slice(), body) {
            return Some(i - 1);
        }
        i = i - 1;
    }
    None
}

/// The views of a list of names.
pub open spec fn names(v: Seq<Vec<u8>>) -> Seq<Seq<u8>> {
    v.map_values(|n: Vec<u8>| n@)
}

/// The ancestors of `body`, nearest first; `None` when the chain is longer
/// than the map has entries, which only a cycle allows.
pub fn orbital_chain(body: &[u8], map: &Vec<Orbit>) -> (r: Option<Vec<Vec<u8>>>)
    ensures
        match chain_of(entries(map@), body@) {
            Some(c) => (r is Some) && names(r->Some_0@) == c,
            None => r is None,
        },
{
    let ghost es = entries(map@);
    let n = map.len();
    let mut chain: Vec<Vec<u8>> = Vec::new();
    let mut cur: Vec<u8> = bytes_of(body, 0, body.len());
    assert(body@.subrange(0, body@.len() as int) =~= body@);
    let mut fuel: usize = n;
    assert(names(chain@) + Seq::<Seq<u8>>::empty() =~= Seq::<Seq<u8>>::empty());
    loop
        invariant
            es == entries(map@),
            es.len() == n,
            chain_of(es, body@) == match ancestors(es, cur@, fuel as nat) {
                Some(rest) => Some(names(chain@) + rest),
                None => None,
            },
        decreases fuel,
    {
        match find_parent(map, cur.as_slice()) {
            None => {
                assert(names(chain@) + Seq::<Seq<u8>>::empty() =~= names(chain@));
                return Some(chain);
            },
            Some(idx) => {
                if fuel == 0 {
                    return None;
                }
                let p = bytes_of(map[idx].parent.as_slice(), 0, map[idx].parent.len());
                let q = bytes_of(map[idx].parent.as_slice(), 0, map[idx].parent.len());
                assert(map@[idx as int].parent@.subrange(0, map@[idx as int].parent@.len() as int)
                    =~= map@[idx as int].parent@);
                let ghost prev = names(chain@);
                chain.push(p);
                assert(names(chain@) =~= prev.push(q@));
                proof {
                    match ancestors(es, q@, (fuel - 1) as nat) {
                        Some(rest) => {
                            assert(prev + (seq![q@] + rest) =~= prev.push(q@) + rest);
                        },
                        None => {},
                    }
                }
                cur = q;
                fuel = fuel - 1;
            },
        }
    }
}

/// How many bodies `body` orbits, directly and indirectly; `None` on a cycle.
pub fn num_orbits(body: &[u8], map: &Vec<Orbit>) -> (r: Option<usize>)
    ensures
        match r {
            Some(d) => chain_of(entries(map@), body@) matches Some(c) && c.len() == d,
            None => chain_of(entries(map@), body@) is None,
        },
{
    match orbital_chain(body, map) {
        Some(c) => Some(c.len()),
        None => None,
    }
}

/// Partial depth sums never exceed the whole sum.
proof fn lemma_depth_sum_grows(es: Seq<(Seq<u8>, Seq<u8>)>, k: nat, m: nat)
    requires
        k <= m,
        depth_sum(es, m) is Some,
    ensures
        depth_sum(es, k) is Some,
        depth_sum(es, k)->Some_0 <= depth_sum(es, m)->Some_0,
    decreases m - k,
{
    if k < m {
        lemma_depth_sum_grows(es, k, (m - 1) as nat);
    }
}

/// The total number of direct and indirect orbits in the map that
/// `map_data` spells; `None` on a cycle or past `u64::MAX`.
pub fn total_orbits(map_data: &str) -> (r: Result<Option<u64>, ParseError>)
    ensures
        match orbit_entries(text_lines(map_data.spec_bytes())) {
            None => r == Err::<Option<u64>, ParseError>(ParseError::MalformedLine),
            Some(es) => match depth_sum(es, es.len()) {
                Some(t) => if t <= u64::MAX {
                    r == Ok::<Option<u64>, ParseError>(Some(t as u64))
                } else {
                    r == Ok::<Option<u64>, ParseError>(None)
                },
                None => r == Ok::<Option<u64>, ParseError>(None),
            },
        },
{
    let map = match star_map(map_data) {
        Ok(map) => map,
        Err(e) => return Err(e),
    };
    let ghost es = entries(map@);
    let n = map.len();
    let mut total: u64 = 0;
    let mut i: usize = 0;
    while i < n
        invariant
            orbit_entries(text_lines(map_data.spec_bytes())) == Some(es),
            es == entries(map@),
            n == es.len(),
            i <= n,
            depth_sum(es, i as nat) == Some(total as int),
        decreases n - i,
    {
        let mut last = true;
        let mut j: usize = i + 1;
        while j < n
            invariant
                es == entries(map@),
                n == es.len(),
                i < j <= n,
                last == forall|k: int| i < k < j ==> #[trigger] es[k].0 != es[i as int].0,
            decreases n - j,
        {
            assert(es[j as int] == map@[j as int]@ && es[i as int] == map@[i as int]@);
            let same = bytes_equal(map[j].body.as_slice(), map[i].body.as_slice());
            assert(same == (es[j as int].0 == es[i as int].0));
            if same {
                last = false;
            }
            j = j + 1;
        }
        assert(last == is_last_entry(es, i as int));
        assert(es[i as int] == map@[i as int]@);
        if last {
            match num_orbits(map[i].body.as_slice(), &map) {
                None => {
                    proof {
                        if depth_sum(es, n as nat) is Some {
                            lemma_depth_sum_grows(es, i as nat + 1, n as nat);
                        }
                    }
                    return Ok(None);
                },
                Some(d) => {
                    if total > u64::MAX - (d as u64) {
                        proof {
                            if depth_sum(es, n as nat) is Some {
                                lemma_depth_sum_grows(es, i as nat + 1, n as nat);
                            }
                        }
                        return Ok(None);
                    }
                    total = total + d as u64;
                },
            }
        }
        i = i + 1;
    }
    Ok(Some(total))
}

/// The index of the first occurrence of `x` in `s`.
pub open spec fn first_index(s: Seq<Seq<u8>>, x: Seq<u8>) -> Option<int>
    decreases s.len(),
{
    if s.len() == 0 {
        None
    } else if s[0] == x {
        Some(0)
    } else {
        match first_index(s.drop_first(), x) {
            Some(j) => Some(j + 1),
            None => None,
        }
    }
}

/// Walking the chain `c1` from its start, the first body that `c2` also
/// holds, at `i` in `c1` and first at `j` in `c2`, gives `i + j`.
pub open spec fn transfers(c1: Seq<Seq<u8>>, c2: Seq<Seq<u8>>) -> Option<int>
    decreases c1.len(),
{
    if c1.len() == 0 {
        None
    } else {
        match first_index(c2, c1[0]) {
            Some(j) => Some(j),
            None => match transfers(c1.drop_first(), c2) {
                Some(t) => Some(t + 1),
                None => None,
            },
        }
    }
}

/// The number of orbital transfers from the body that `from` orbits to the
/// body that `to` orbits, through their nearest common ancestor.
pub open spec fn transfer_count(es: Seq<(Seq<u8>, Seq<u8>)>, from: Seq<u8>, to: Seq<u8>) -> Option<
    int,
> {
    match (chain_of(es, from), chain_of(es, to)) {
        (Some(c1), Some(c2)) => transfers(c1, c2),
        _ => None,
    }
}

/// The position of the first name in `chain` equal to `x`.
fn position_of(chain: &Vec<Vec<u8>>, x: &[u8]) -> (r: Option<usize>)
    ensures
        match r {
            Some(j) => first_index(names(chain@), x@) == Some(j as int),
            None => first_index(names(chain@), x@) is None,
        },
{
    let ghost s = names(chain@);
    let mut i: usize = 0;
    assert(s.subrange(0, s.len() as int) =~= s);
    while i < chain.len()
        invariant
            s == names(chain@),
            i <= s.len(),
            first_index(s, x@) == match first_index(s.subrange(i as int, s.len() as int), x@) {
                Some(j) => Some(j + i),
                None => None,
            },
        decreases s.len() - i,
    {
        let ghost rest = s.subrange(i as int, s.len() as int);
        assert(rest.drop_first() =~= s.subrange(i + 1, s.len() as int));
        assert(rest[0] == chain@[i as int]@);
        if bytes_equal(chain[i].as_slice(), x) {
            return Some(i);
        }
        i = i + 1;
    }
    None
}

/// The number of orbital transfers between the bodies that `from` and `to`
/// orbit; `None` when they share no ancestor or a chain has a cycle.
pub fn orbital_transfers(map: &Vec<Orbit>, from: &[u8], to: &[u8]) -> (r: Option<usize>)
    ensures
        match transfer_count(entries(map@), from@, to@) {
            Some(t) => if t <= usize::MAX {
                r == Some(t as usize)
            } else {
                r is None
            },
            None => r is None,
        },
{
    let c1 = match orbital_chain(from, map) {
        Some(c) => c,
        None => return None,
    };
    let c2 = match orbital_chain(to, map) {
        Some(c) => c,
        None => return None,
    };
    let ghost s1 = names(c1@);
    let ghost s2 = names(c2@);
    let mut i: usize = 0;
    assert(s1.subrange(0, s1.len() as int) =~= s1);
    while i < c1.len()
        invariant
            transfer_count(entries(map@), from@, to@) == transfers(s1, s2),
            s1 == names(c1@),
            s2 == names(c2@),
            i <= s1.len(),
            transfers(s1, s2) == match transfers(s1.subrange(i as int, s1.len() as int), s2) {
                Some(t) => Some(t + i),
                None => None,
            },
        decreases s1.len() - i,
    {
        let ghost rest = s1.subrange(i as int, s1.len() as int);
        assert(rest.drop_first() =~= s1.subrange(i + 1, s1.len() as int));
        assert(rest[0] == c1@[i as int]@);
        match position_of(&c2, c1[i].as_slice()) {
            Some(j) => {
                if j > usize::MAX - i {
                    return None;
                }
                return Some(j + i);
            },
            None => {},
        }
        i = i + 1;
    }
    None
}


} // verus!
