use std::cmp::Ordering;
use std::collections::HashMap;
use vstd::prelude::*;

verus! {

broadcast use vstd::std_specs::hash::group_hash_axioms;

/// A ranking rule of the settings.
pub enum RankingRule {
    Typo,
    Words,
    Proximity,
    Attribute,
    WordsPosition,
    Exactness,
    Asc(String),
    Desc(String),
}

/// The attributes of the index, a field id being a position in `fields`.
pub struct Schema {
    pub fields: Vec<String>,
}

/// The field id of the first attribute named `name`, if any fits a field id.
pub open spec fn spec_field_id(fields: Seq<String>, name: Seq<char>) -> Option<u16>
    decreases fields.len(),
{
    if fields.len() == 0 {
        None
    } else {
        match spec_field_id(fields.drop_last(), name) {
            Some(f) => Some(f),
            None => if fields.last()@ == name && fields.len() - 1 <= u16::MAX {
                Some((fields.len() - 1) as u16)
            } else {
                None
            },
        }
    }
}

impl Schema {
    pub fn id(&self, name: &String) -> (r: Option<u16>)
        ensures
            r == spec_field_id(self.fields@, name@),
    {
        let mut i: usize = 0;
        while i < self.fields.len()
            invariant
                i <= self.fields@.len(),
                spec_field_id(self.fields@.subrange(0, i as int), name@) is None,
            decreases self.fields@.len() - i,
        {
            proof {
                assert(self.fields@.subrange(0, i + 1).drop_last() == self.fields@.subrange(0, i as int));
            }
            if i <= 65535 && self.fields[i] == *name {
                proof {
                    lemma_field_id_prefix(self.fields@, name@, i + 1);
                }
                return Some(i as u16);
            }
            i += 1;
        }
        proof {
            assert(self.fields@.subrange(0, i as int) == self.fields@);
        }
        None
    }
}

proof fn lemma_field_id_prefix(fields: Seq<String>, name: Seq<char>, n: int)
    requires
        0 < n <= fields.len(),
        spec_field_id(fields.subrange(0, n), name) is Some,
    ensures
        spec_field_id(fields, name) == spec_field_id(fields.subrange(0, n), name),
    decreases fields.len() - n,
{
    if n < fields.len() {
        assert(fields.subrange(0, n + 1).drop_last() == fields.subrange(0, n));
        lemma_field_id_prefix(fields, name, n + 1);
    } else {
        assert(fields.subrange(0, n) == fields);
    }
}

/// Attribute values of documents, by document and field.
pub struct RankedMap {
    pub values: HashMap<u64, HashMap<u16, i64>>,
}

impl RankedMap {
    pub open spec fn value(&self, d: u64, f: u16) -> Option<i64> {
        if self.values@.contains_key(d) && self.values@[d]@.contains_key(f) {
            Some(self.values@[d]@[f])
        } else {
            None
        }
    }

    pub fn get(&self, d: u64, f: u16) -> (r: Option<i64>)
        ensures
            r == self.value(d, f),
    {
        match self.values.get(&d) {
            Some(fields) => match fields.get(&f) {
                Some(v) => Some(*v),
                None => None,
            },
            None => None,
        }
    }
}

/// An attribute to sort on, and in which direction.
#[derive(Clone, Copy, Debug, PartialEq, Eq)]
pub struct SortRule {
    pub field: u16,
    pub ascending: bool,
}

/// Present values in their order, absent ones after them.
pub open spec fn value_cmp(a: Option<i64>, b: Option<i64>) -> Ordering {
    match (a, b) {
        (Some(x), Some(y)) => if x < y {
            Ordering::Less
        } else if x == y {
            Ordering::Equal
        } else {
            Ordering::Greater
        },
        (Some(_), None) => Ordering::Less,
        (None, Some(_)) => Ordering::Greater,
        (None, None) => Ordering::Equal,
    }
}

/// Compares two documents by the rules from the `i`-th on: the first rule
/// that tells them apart decides; descending rules compare the other way.
pub open spec fn rules_cmp(rules: Seq<SortRule>, rm: RankedMap, i: int, a: u64, b: u64) -> Ordering
    decreases rules.len() - i,
{
    if i >= rules.len() || i < 0 {
        Ordering::Equal
    } else {
        let r = rules[i];
        let o = if r.ascending {
            value_cmp(rm.value(a, r.field), rm.value(b, r.field))
        } else {
            value_cmp(rm.value(b, r.field), rm.value(a, r.field))
        };
        if o == Ordering::Equal {
            rules_cmp(rules, rm, i + 1, a, b)
        } else {
            o
        }
    }
}

fn compare_values(a: Option<i64>, b: Option<i64>) -> (r: Ordering)
    ensures
        r == value_cmp(a, b),
{
    match (a, b) {
        (Some(x), Some(y)) => if x < y {
            Ordering::Less
        } else if x == y {
            Ordering::Equal
        } else {
            Ordering::Greater
        },
        (Some(_), None) => Ordering::Less,
        (None, Some(_)) => Ordering::Greater,
        (None, None) => Ordering::Equal,
    }
}

/// Compares two documents by the sort rules.
pub fn compare_documents(rules: &Vec<SortRule>, ranked_map: &RankedMap, a: u64, b: u64) -> (r: Ordering)
    ensures
        r == rules_cmp(rules@, *ranked_map, 0, a, b),
{
    let mut i: usize = rules.len();
    let mut acc = Ordering::Equal;
    while i > 0
        invariant
            i <= rules@.len(),
            acc == rules_cmp(rules@, *ranked_map, i as int, a, b),
        decreases i,
    {
        i -= 1;
        let r = rules[i];
        let o = if r.ascending {
            compare_values(ranked_map.get(a, r.field), ranked_map.get(b, r.field))
        } else {
            compare_values(ranked_map.get(b, r.field), ranked_map.get(a, r.field))
        };
        acc = match o {
            Ordering::Equal => acc,
            _ => o,
        };
    }
    acc
}

/// Failures of a ranking call.
#[derive(Clone, Copy, Debug, PartialEq, Eq)]
pub enum Error {
    /// The index has ranking rules but no schema to resolve their attributes.
    SchemaMissing,
}

/// The ascending and descending rules whose attribute the schema knows, in order.
pub open spec fn custom_rules(rules: Seq<RankingRule>, fields: Seq<String>) -> Seq<SortRule>
    decreases rules.len(),
{
    if rules.len() == 0 {
        Seq::empty()
    } else {
        let prev = custom_rules(rules.drop_last(), fields);
        match rules.last() {
            RankingRule::Asc(name) => match spec_field_id(fields, name@) {
                Some(f) => prev.push(SortRule { field: f, ascending: true }),
                None => prev,
            },
            RankingRule::Desc(name) => match spec_field_id(fields, name@) {
                Some(f) => prev.push(SortRule { field: f, ascending: false }),
                None => prev,
            },
            _ => prev,
        }
    }
}

fn sort_rules(rules: &Vec<RankingRule>, schema: &Schema) -> (r: Vec<SortRule>)
    ensures
        r@ == custom_rules(rules@, schema.fields@),
{
    let mut r: Vec<SortRule> = Vec::new();
    let mut i: usize = 0;
    while i < rules.len()
        invariant
            i <= rules@.len(),
            r@ == custom_rules(rules@.subrange(0, i as int), schema.fields@),
        decreases rules@.len() - i,
    {
        proof {
            assert(rules@.subrange(0, i + 1).drop_last() == rules@.subrange(0, i as int));
            assert(rules@.subrange(0, i + 1).last() == rules@[i as int]);
        }
        match &rules[i] {
            RankingRule::Asc(name) => match schema.id(name) {
                Some(f) => r.push(SortRule { field: f, ascending: true }),
                None => {},
            },
            RankingRule::Desc(name) => match schema.id(name) {
                Some(f) => r.push(SortRule { field: f, ascending: false }),
                None => {},
            },
            _ => {},
        }
        i += 1;
    }
    proof {
        assert(rules@.subrange(0, i as int) == rules@);
    }
    r
}

/// The order of input positions: by the rules, ties by position.
pub open spec fn position_cmp(ids: Seq<u64>, rules: Seq<SortRule>, rm: RankedMap, a: int, b: int) -> Ordering {
    let o = rules_cmp(rules, rm, 0, ids[a], ids[b]);
    if o != Ordering::Equal {
        o
    } else if a < b {
        Ordering::Less
    } else if a == b {
        Ordering::Equal
    } else {
        Ordering::Greater
    }
}

/// Compares two input positions by the rules, then by position.
pub fn position_order(ids: &Vec<u64>, rules: &Vec<SortRule>, ranked_map: &RankedMap, a: usize, b: usize) -> (r: Ordering)
    requires
        a < ids@.len(),
        b < ids@.len(),
    ensures
        r == position_cmp(ids@, rules@, *ranked_map, a as int, b as int),
{
    let o = compare_documents(rules, ranked_map, ids[a], ids[b]);
    match o {
        Ordering::Equal => if a < b {
            Ordering::Less
        } else if a == b {
            Ordering::Equal
        } else {
            Ordering::Greater
        },
        _ => o,
    }
}

/// Relies on `<[T]>::sort_unstable_by`: the same elements, in the order of
/// the comparator, a total order on positions.
#[verifier::external_body]
fn sort_positions(positions: &mut Vec<usize>, ids: &Vec<u64>, rules: &Vec<SortRule>, ranked_map: &RankedMap)
    requires
        forall|i: int| 0 <= i < old(positions)@.len() ==> #[trigger] old(positions)@[i] < ids@.len(),
    ensures
        final(positions)@.to_multiset() == old(positions)@.to_multiset(),
        forall|i: int, j: int|
            0 <= i < j < final(positions)@.len() ==> position_cmp(
                ids@,
                rules@,
                *ranked_map,
                #[trigger] final(positions)@[i] as int,
                #[trigger] final(positions)@[j] as int,
            ) != Ordering::Greater,
{
    positions.sort_unstable_by(|a, b| position_order(ids, rules, ranked_map, *a, *b))
}

/// `p` lists each position below `n` once.
pub open spec fn is_placement(p: Seq<int>, n: int) -> bool {
    &&& p.len() == n
    &&& forall|i: int| 0 <= i < n ==> 0 <= #[trigger] p[i] < n
    &&& forall|i: int, j: int| 0 <= i < n && 0 <= j < n && i != j ==> #[trigger] p[i] != #[trigger] p[j]
}

/// `out` is `ids` reordered by `p`, which follows the rules and keeps the
/// input order among documents the rules do not tell apart.
pub open spec fn placed_by_rules(ids: Seq<u64>, rules: Seq<SortRule>, rm: RankedMap, p: Seq<int>, out: Seq<u64>) -> bool {
    &&& is_placement(p, ids.len() as int)
    &&& out.len() == ids.len()
    &&& forall|i: int| 0 <= i < out.len() ==> #[trigger] out[i] == ids[p[i]]
    &&& forall|i: int, j: int|
        0 <= i < j < out.len() ==> position_cmp(ids, rules, rm, #[trigger] p[i], #[trigger] p[j]) == Ordering::Less
}

/// Sorts documents by the ascending and descending ranking rules of the
/// settings, for searches without a query. Documents the rules do not tell
/// apart keep their order. Without ranking rules nothing changes; ranking
/// rules without a schema are an error.
pub fn placeholder_document_sort(
    document_ids: &mut Vec<u64>,
    ranking_rules: &Option<Vec<RankingRule>>,
    schema: &Option<Schema>,
    ranked_map: &RankedMap,
) -> (r: Result<(), Error>)
    ensures
        ranking_rules is None ==> r is Ok && final(document_ids)@ == old(document_ids)@,
        ranking_rules is Some && schema is None ==> r == Err::<(), Error>(Error::SchemaMissing)
            && final(document_ids)@ == old(document_ids)@,
        ranking_rules is Some && schema is Some ==> r is Ok && exists|p: Seq<int>|
            placed_by_rules(
                old(document_ids)@,
                custom_rules(ranking_rules->0@, schema->0.fields@),
                *ranked_map,
                p,
                final(document_ids)@,
            ),
{
    let rules = match ranking_rules {
        Some(rules) => rules,
        None => return Ok(()),
    };
    let schema = match schema {
        Some(schema) => schema,
        None => return Err(Error::SchemaMissing),
    };
    let sort = sort_rules(rules, schema);
    let ids = document_ids.clone();
    proof {
        assert(ids@ =~= old(document_ids)@);
    }
    let n = ids.len();
    let mut positions: Vec<usize> = Vec::new();
    let mut i: usize = 0;
    while i < n
        invariant
            i <= n,
            n == ids@.len(),
            positions@.len() == i,
            forall|x: int| 0 <= x < i ==> #[trigger] positions@[x] == x,
        decreases n - i,
    {
        positions.push(i);
        i += 1;
    }
    let ghost p0 = positions@;
    sort_positions(&mut positions, &ids, &sort, ranked_map);
    proof {
        crate::ranking::lemma_perm_witness(positions@, p0);
    }
    let mut out: Vec<u64> = Vec::new();
    let mut j: usize = 0;
    while j < n
        invariant
            j <= n,
            n == ids@.len(),
            positions@.len() == n,
            forall|x: int| 0 <= x < n ==> p0.contains(#[trigger] positions@[x]),
            forall|x: int| 0 <= x < n ==> #[trigger] p0[x] == x,
            p0.len() == n,
            out@.len() == j,
            forall|x: int| 0 <= x < j ==> #[trigger] out@[x] == ids@[positions@[x] as int],
        decreases n - j,
    {
        proof {
            assert(p0.contains(positions@[j as int]));
            let k = choose|k: int| 0 <= k < p0.len() && p0[k] == positions@[j as int];
            assert(p0[k] == k);
        }
        out.push(ids[positions[j]]);
        j += 1;
    }
    let ghost p = positions@.map(|k: int, v: usize| v as int);
    proof {
        assert forall|x: int| 0 <= x < n implies 0 <= #[trigger] p[x] < n by {
            assert(p0.contains(positions@[x]));
            let k = choose|k: int| 0 <= k < p0.len() && p0[k] == positions@[x];
            assert(p0[k] == k);
        }
        assert forall|x: int, y: int| 0 <= x < n && 0 <= y < n && x != y implies #[trigger] p[x] != #[trigger] p[y] by {
            assert(p0.no_duplicates()) by {
                assert forall|a: int, b: int| 0 <= a < n && 0 <= b < n && a != b implies p0[a] != p0[b] by {}
            }
        }
        assert forall|x: int, y: int| 0 <= x < y < n implies position_cmp(
            ids@,
            sort@,
            *ranked_map,
            #[trigger] p[x],
            #[trigger] p[y],
        ) == Ordering::Less by {
            assert(position_cmp(ids@, sort@, *ranked_map, positions@[x] as int, positions@[y] as int) != Ordering::Greater);
            assert(p0.no_duplicates()) by {
                assert forall|a: int, b: int| 0 <= a < n && 0 <= b < n && a != b implies p0[a] != p0[b] by {}
            }
            assert(positions@[x] != positions@[y]);
        }
        assert(placed_by_rules(ids@, sort@, *ranked_map, p, out@));
    }
    *document_ids = out;
    Ok(())
}

/// Documents that every rule finds equal keep their input order.
pub proof fn lemma_placeholder_stable(
    ids: Seq<u64>,
    rules: Seq<SortRule>,
    rm: RankedMap,
    p: Seq<int>,
    out: Seq<u64>,
    i: int,
    j: int,
)
    requires
        placed_by_rules(ids, rules, rm, p, out),
        0 <= i < j < out.len(),
        rules_cmp(rules, rm, 0, out[i], out[j]) == Ordering::Equal,
    ensures
        p[i] < p[j],
{
    assert(position_cmp(ids, rules, rm, p[i], p[j]) == Ordering::Less);
}

} // verus!
