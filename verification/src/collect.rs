//! Collecting parsed entries into a keyed mapping or an ordered sequence.
//!
//! The two consumers diverge on purpose: the keyed mapping keeps at most
//! one value per name, the last occurrence winning; the ordered sequence
//! keeps every entry, duplicates included, in input order.

use crate::lines::line_views;
use crate::parse::{spec_parse_entry, string_to_env_entry};
use vstd::prelude::*;

verus! {

/// The mapping that a sequence of `(name, value)` pairs builds up, later
/// pairs overwriting earlier ones with the same name.
pub open spec fn map_of_pairs(ps: Seq<(String, String)>) -> Map<Seq<char>, Seq<char>>
    decreases ps.len(),
{
    if ps.len() == 0 {
        Map::empty()
    } else {
        map_of_pairs(ps.drop_last()).insert(ps.last().0@, ps.last().1@)
    }
}

proof fn lemma_map_of_pairs_update(ps: Seq<(String, String)>, i: int, p: (String, String))
    requires
        0 <= i < ps.len(),
        ps[i].0@ == p.0@,
        forall|a: int, b: int|
            0 <= a < b < ps.len() ==> #[trigger] ps[a].0@ != #[trigger] ps[b].0@,
    ensures
        map_of_pairs(ps.update(i, p)) == map_of_pairs(ps).insert(p.0@, p.1@),
    decreases ps.len(),
{
    let k = p.0@;
    if i == ps.len() - 1 {
        assert(ps.update(i, p).drop_last() =~= ps.drop_last());
        assert(ps.update(i, p).last() == p);
        assert(map_of_pairs(ps.drop_last()).insert(k, p.1@) =~= map_of_pairs(
            ps.drop_last(),
        ).insert(ps.last().0@, ps.last().1@).insert(k, p.1@));
    } else {
        assert(ps.update(i, p).drop_last() =~= ps.drop_last().update(i, p));
        assert(ps.update(i, p).last() == ps.last());
        assert forall|a: int, b: int|
            0 <= a < b < ps.drop_last().len() implies #[trigger] ps.drop_last()[a].0@
            != #[trigger] ps.drop_last()[b].0@ by {
            assert(ps[a].0@ != ps[b].0@);
        }
        assert(ps.drop_last()[i].0@ == p.0@) by {
            assert(ps.drop_last()[i] == ps[i]);
        }
        lemma_map_of_pairs_update(ps.drop_last(), i, p);
        assert(ps.last().0@ != k) by {
            assert(ps[i].0@ != ps[ps.len() - 1].0@);
        }
        assert(map_of_pairs(ps.drop_last()).insert(k, p.1@).insert(ps.last().0@, ps.last().1@)
            =~= map_of_pairs(ps.drop_last()).insert(ps.last().0@, ps.last().1@).insert(k, p.1@));
    }
}

/// A keyed mapping from names to values, at most one value per name; a
/// later insertion for a name already present overwrites its value.
pub struct EnvMap {
    pairs: Vec<(String, String)>,
}

impl View for EnvMap {
    type V = Map<Seq<char>, Seq<char>>;

    closed spec fn view(&self) -> Map<Seq<char>, Seq<char>> {
        map_of_pairs(self.pairs@)
    }
}

impl EnvMap {
    #[verifier::type_invariant]
    closed spec fn wf(&self) -> bool {
        forall|i: int, j: int|
            0 <= i < j < self.pairs@.len() ==> #[trigger] self.pairs@[i].0@
                != #[trigger] self.pairs@[j].0@
    }

    /// The empty mapping.
    pub fn new() -> (r: EnvMap)
        ensures
            r@ == Map::<Seq<char>, Seq<char>>::empty(),
    {
        EnvMap { pairs: Vec::new() }
    }

    /// Inserts a pair, overwriting any earlier value for the same name.
    pub fn insert(&mut self, key: String, value: String)
        ensures
            final(self)@ == old(self)@.insert(key@, value@),
    {
        let ghost ps = old(self).pairs@;
        proof {
            assert(self.pairs@ == ps);
            use_type_invariant(&*self);
            assert(forall|i: int, j: int|
                0 <= i < j < ps.len() ==> #[trigger] ps[i].0@ != #[trigger] ps[j].0@);
        }
        let mut v: Vec<(String, String)> = Vec::new();
        core::mem::swap(&mut v, &mut self.pairs);
        let n = v.len();
        let mut idx: usize = 0;
        while idx < n
            invariant
                n == v@.len(),
                idx <= n,
                v@ == ps,
                ps == old(self).pairs@,
                forall|a: int, b: int|
                    0 <= a < b < ps.len() ==> #[trigger] ps[a].0@ != #[trigger] ps[b].0@,
                forall|j: int| 0 <= j < idx ==> #[trigger] v@[j].0@ != key@,
            decreases n - idx,
        {
            if v[idx].0 == key {
                let ghost kv = (key, value);
                v[idx] = (key, value);
                proof {
                    assert(v@ =~= ps.update(idx as int, kv));
                    lemma_map_of_pairs_update(ps, idx as int, kv);
                    assert forall|i: int, j: int|
                        0 <= i < j < v@.len() implies #[trigger] v@[i].0@ != #[trigger] v@[j].0@ by {
                        assert(ps[i].0@ != ps[j].0@);
                        assert(v@[i].0@ == ps[i].0@);
                        assert(v@[j].0@ == ps[j].0@);
                    }
                }
                core::mem::swap(&mut v, &mut self.pairs);
                proof {
                    assert(self@ == old(self)@.insert(key@, value@));
                }
                return ;
            }
            idx = idx + 1;
        }
        v.push((key, value));
        proof {
            assert(v@.drop_last() =~= ps);
            assert forall|i: int, j: int|
                0 <= i < j < v@.len() implies #[trigger] v@[i].0@ != #[trigger] v@[j].0@ by {
                if j < v@.len() - 1 {
                    assert(ps[i].0@ != ps[j].0@);
                }
            }
        }
        core::mem::swap(&mut v, &mut self.pairs);
    }

    /// The pairs held, in some order: names are pairwise distinct, and
    /// rebuilding the mapping from them gives this mapping back.
    pub fn entries(&self) -> (r: &Vec<(String, String)>)
        ensures
            map_of_pairs(r@) == self@,
            forall|i: int, j: int|
                0 <= i < j < r@.len() ==> #[trigger] r@[i].0@ != #[trigger] r@[j].0@,
    {
        proof {
            use_type_invariant(self);
        }
        &self.pairs
    }
}

/// The mapping that a sequence of parse results builds up: each `Some`
/// inserts its pair, the last occurrence of a name winning; each `None`
/// contributes nothing.
pub open spec fn collected_map(parsed: Seq<Option<(String, String)>>) -> Map<Seq<char>, Seq<char>>
    decreases parsed.len(),
{
    if parsed.len() == 0 {
        Map::empty()
    } else {
        let m = collected_map(parsed.drop_last());
        match parsed.last() {
            Some(kv) => m.insert(kv.0@, kv.1@),
            None => m,
        }
    }
}

/// The sequence that a sequence of parse results builds up: each `Some`
/// appends its pair, in order, duplicates kept; each `None` contributes
/// nothing.
pub open spec fn collected_entries(parsed: Seq<Option<(String, String)>>) -> Seq<(String, String)>
    decreases parsed.len(),
{
    if parsed.len() == 0 {
        Seq::empty()
    } else {
        let rest = collected_entries(parsed.drop_last());
        match parsed.last() {
            Some(kv) => rest.push(kv),
            None => rest,
        }
    }
}

/// `res` is a result that the folder can return for the raw line `line`.
pub open spec fn parses_line<F: Fn(&str) -> Option<(String, String)>>(
    folder: F,
    line: String,
    res: Option<(String, String)>,
) -> bool {
    exists|s: &str| s@ == line@ && call_ensures(folder, (s,), res)
}

/// `parsed` holds, line by line, results that the folder can return for
/// the given raw lines.
pub open spec fn parses_with<F: Fn(&str) -> Option<(String, String)>>(
    folder: F,
    lines: Seq<String>,
    parsed: Seq<Option<(String, String)>>,
) -> bool {
    &&& parsed.len() == lines.len()
    &&& forall|i: int|
        0 <= i < lines.len() ==> #[trigger] parses_line(folder, lines[i], parsed[i])
}

/// Folds raw lines into a keyed mapping: each line the folder accepts
/// inserts its pair, a later line overwriting an earlier value for the
/// same name; rejected lines contribute nothing.
pub fn raw_env_vars_to_map<F: Fn(&str) -> Option<(String, String)>>(
    raw_env_vars: Vec<String>,
    folder: F,
) -> (r: EnvMap)
    requires
        forall|s: &str| #[trigger] call_requires(folder, (s,)),
    ensures
        exists|parsed: Seq<Option<(String, String)>>|
            parses_with(folder, raw_env_vars@, parsed) && r@ == collected_map(parsed),
{
    let mut m = EnvMap::new();
    let ghost mut parsed: Seq<Option<(String, String)>> = Seq::empty();
    let n = raw_env_vars.len();
    let mut i: usize = 0;
    while i < n
        invariant
            n == raw_env_vars@.len(),
            i <= n,
            forall|s: &str| #[trigger] call_requires(folder, (s,)),
            parsed.len() == i,
            forall|k: int|
                0 <= k < i ==> #[trigger] parses_line(folder, raw_env_vars@[k], parsed[k]),
            m@ == collected_map(parsed),
        decreases n - i,
    {
        let line = &raw_env_vars[i];
        let s_arg = line.as_str();
        let res = folder(s_arg);
        let ghost res_g = res;
        match res {
            Some(kv) => m.insert(kv.0, kv.1),
            None => (),
        }
        proof {
            let prev = parsed;
            parsed = parsed.push(res_g);
            assert(parsed.drop_last() =~= prev);
            assert(parses_line(folder, raw_env_vars@[i as int], res_g)) by {
                assert(s_arg@ == raw_env_vars@[i as int]@ && call_ensures(folder, (s_arg,), res_g));
            }
            assert forall|k: int|
                0 <= k < i + 1 implies #[trigger] parses_line(
                folder,
                raw_env_vars@[k],
                parsed[k],
            ) by {
                if k < i {
                    assert(parses_line(folder, raw_env_vars@[k], prev[k]));
                    assert(parsed[k] == prev[k]);
                } else {
                    assert(parsed[k] == res_g);
                }
            }
        }
        i = i + 1;
    }
    proof {
        assert(parses_with(folder, raw_env_vars@, parsed));
    }
    m
}

/// Folds raw lines into an ordered sequence: each line the folder accepts
/// appends its pair, in file order, duplicate names kept as separate
/// entries; rejected lines contribute nothing.
pub fn raw_env_vars_to_tuples<F: Fn(&str) -> Option<(String, String)>>(
    raw_env_vars: Vec<String>,
    folder: F,
) -> (r: Vec<(String, String)>)
    requires
        forall|s: &str| #[trigger] call_requires(folder, (s,)),
    ensures
        exists|parsed: Seq<Option<(String, String)>>|
            parses_with(folder, raw_env_vars@, parsed) && r@ == collected_entries(parsed),
{
    let mut out: Vec<(String, String)> = Vec::new();
    let ghost mut parsed: Seq<Option<(String, String)>> = Seq::empty();
    let n = raw_env_vars.len();
    let mut i: usize = 0;
    while i < n
        invariant
            n == raw_env_vars@.len(),
            i <= n,
            forall|s: &str| #[trigger] call_requires(folder, (s,)),
            parsed.len() == i,
            forall|k: int|
                0 <= k < i ==> #[trigger] parses_line(folder, raw_env_vars@[k], parsed[k]),
            out@ == collected_entries(parsed),
        decreases n - i,
    {
        let line = &raw_env_vars[i];
        let s_arg = line.as_str();
        let res = folder(s_arg);
        let ghost res_g = res;
        match res {
            Some(kv) => out.push(kv),
            None => (),
        }
        proof {
            let prev = parsed;
            parsed = parsed.push(res_g);
            assert(parsed.drop_last() =~= prev);
            assert(parses_line(folder, raw_env_vars@[i as int], res_g)) by {
                assert(s_arg@ == raw_env_vars@[i as int]@ && call_ensures(folder, (s_arg,), res_g));
            }
            assert forall|k: int|
                0 <= k < i + 1 implies #[trigger] parses_line(
                folder,
                raw_env_vars@[k],
                parsed[k],
            ) by {
                if k < i {
                    assert(parses_line(folder, raw_env_vars@[k], prev[k]));
                    assert(parsed[k] == prev[k]);
                } else {
                    assert(parsed[k] == res_g);
                }
            }
        }
        i = i + 1;
    }
    proof {
        assert(parses_with(folder, raw_env_vars@, parsed));
    }
    out
}

/// The views of a sequence of `(name, value)` pairs.
pub open spec fn pair_views(ps: Seq<(String, String)>) -> Seq<(Seq<char>, Seq<char>)> {
    ps.map_values(|p: (String, String)| (p.0@, p.1@))
}

/// The keyed mapping that raw lines yield under entry parsing: every line
/// that parses inserts its pair, the last occurrence of a name winning.
pub open spec fn spec_env_map(ls: Seq<Seq<char>>) -> Map<Seq<char>, Seq<char>>
    decreases ls.len(),
{
    if ls.len() == 0 {
        Map::empty()
    } else {
        let m = spec_env_map(ls.drop_last());
        match spec_parse_entry(ls.last()) {
            Some(kv) => m.insert(kv.0, kv.1),
            None => m,
        }
    }
}

/// The ordered entries that raw lines yield under entry parsing: every
/// line that parses appends its pair, in order, duplicate names kept.
pub open spec fn spec_env_entries(ls: Seq<Seq<char>>) -> Seq<(Seq<char>, Seq<char>)>
    decreases ls.len(),
{
    if ls.len() == 0 {
        Seq::empty()
    } else {
        let rest = spec_env_entries(ls.drop_last());
        match spec_parse_entry(ls.last()) {
            Some(kv) => rest.push(kv),
            None => rest,
        }
    }
}

/// Folding raw lines with the entry parser is deterministic: whatever
/// per-line results the parser's contract admits, the collected mapping
/// and the collected entries are exactly those that entry parsing assigns
/// to the lines.
pub proof fn lemma_entry_parser_collection(
    lines: Seq<String>,
    parsed: Seq<Option<(String, String)>>,
)
    requires
        parses_with(string_to_env_entry, lines, parsed),
    ensures
        collected_map(parsed) == spec_env_map(line_views(lines)),
        pair_views(collected_entries(parsed)) == spec_env_entries(line_views(lines)),
    decreases lines.len(),
{
    let vs = line_views(lines);
    if lines.len() == 0 {
        assert(vs =~= Seq::<Seq<char>>::empty());
        assert(pair_views(collected_entries(parsed)) =~= Seq::<(Seq<char>, Seq<char>)>::empty());
    } else {
        let li = lines.len() - 1;
        assert forall|i: int|
            0 <= i < lines.len() - 1 implies #[trigger] parses_line(
            string_to_env_entry,
            lines.drop_last()[i],
            parsed.drop_last()[i],
        ) by {
            assert(lines.drop_last()[i] == lines[i]);
            assert(parsed.drop_last()[i] == parsed[i]);
            assert(parses_line(string_to_env_entry, lines[i], parsed[i]));
        }
        lemma_entry_parser_collection(lines.drop_last(), parsed.drop_last());
        assert(parses_line(string_to_env_entry, lines[li], parsed[li]));
        let s = choose|s: &str|
            s@ == lines[li]@ && call_ensures(string_to_env_entry, (s,), parsed[li]);
        assert(vs.drop_last() =~= line_views(lines.drop_last()));
        assert(vs.last() == lines[li]@);
        match parsed[li] {
            Some(kv) => {
                assert(spec_parse_entry(vs.last()) == Some((kv.0@, kv.1@)));
                assert(parsed.last() == parsed[li]);
                assert(pair_views(collected_entries(parsed)) =~= pair_views(
                    collected_entries(parsed.drop_last()),
                ).push((kv.0@, kv.1@)));
            },
            None => {
                assert(spec_parse_entry(vs.last()) is None);
            },
        }
    }
}

/// Parses every raw line and collects the accepted entries into the keyed
/// mapping, the last occurrence of a name winning.
pub fn env_map_of_lines(lines: Vec<String>) -> (r: EnvMap)
    ensures
        r@ == spec_env_map(line_views(lines@)),
{
    let ghost ls = lines@;
    let m = raw_env_vars_to_map(lines, string_to_env_entry);
    proof {
        let parsed = choose|parsed: Seq<Option<(String, String)>>|
            parses_with(string_to_env_entry, ls, parsed) && m@ == collected_map(parsed);
        lemma_entry_parser_collection(ls, parsed);
    }
    m
}

/// Parses every raw line and collects the accepted entries in file order,
/// duplicate names kept as separate entries.
pub fn env_entries_of_lines(lines: Vec<String>) -> (r: Vec<(String, String)>)
    ensures
        pair_views(r@) == spec_env_entries(line_views(lines@)),
{
    let ghost ls = lines@;
    let out = raw_env_vars_to_tuples(lines, string_to_env_entry);
    proof {
        let parsed = choose|parsed: Seq<Option<(String, String)>>|
            parses_with(string_to_env_entry, ls, parsed) && out@ == collected_entries(parsed);
        lemma_entry_parser_collection(ls, parsed);
    }
    out
}

} // verus!
