//! The augmented context-free grammar: validated rule storage in
//! compressed-sparse-row form, the reverse production index, and the
//! nullable-symbol fixpoint engine.

use vstd::prelude::*;

use crate::bitset::BitSet;
use crate::flat_table::sum_lens;
use crate::flat_table::FlatTable;
use crate::formal_language::CfgError;
use crate::formal_language::CfgRule;
use crate::formal_language::CfgSymbolSet;
use crate::formal_language::Symbol;

verus! {

/// The rule filter selecting the rules whose origin id is `o`.
pub open spec fn is_origin(o: int) -> spec_fn(CfgRule) -> bool {
    |r: CfgRule| r.origin.id == o
}

/// The rules of `rules` whose origin id is `o`, in their given order.
pub open spec fn rules_with_origin(rules: Seq<CfgRule>, o: int) -> Seq<CfgRule> {
    rules.filter(is_origin(o))
}

/// The rules stably sorted by origin id: for each origin in ascending order,
/// its rules in their given order.
pub open spec fn sort_by_origin(rules: Seq<CfgRule>, n: int) -> Seq<CfgRule>
    decreases n,
{
    if n <= 0 {
        Seq::empty()
    } else {
        sort_by_origin(rules, n - 1) + rules_with_origin(rules, n - 1)
    }
}

/// A rule fits a grammar of `n` non-terminals and `total` symbols: its origin
/// is a non-terminal id and every replacement symbol id is in range.
pub open spec fn rule_valid(r: CfgRule, n: int, total: int) -> bool {
    &&& r.origin.id < n
    &&& forall|j: int| 0 <= j < r.replacement@.len() ==> (#[trigger] r.replacement@[j]).id < total
}

/// Every rule of the collection fits the grammar.
pub open spec fn all_rules_valid(rules: Seq<CfgRule>, n: int, total: int) -> bool {
    forall|i: int| 0 <= i < rules.len() ==> rule_valid(#[trigger] rules[i], n, total)
}

/// The total length of the first `k` rules' replacements.  The 16-bit row
/// indices of the compressed-sparse-row tables bound this total for a whole
/// grammar.
pub open spec fn total_replacement_len(rules: Seq<CfgRule>, k: int) -> int
    decreases k,
{
    if k <= 0 {
        0
    } else {
        total_replacement_len(rules, k - 1) + rules[k - 1].replacement@.len()
    }
}

/// The rule's replacement references symbol id `s` at least once.
pub open spec fn rule_mentions(r: CfgRule, s: int) -> bool {
    exists|j: int| 0 <= j < r.replacement@.len() && (#[trigger] r.replacement@[j]).id == s
}

/// A well-formed reverse production index over the given rule table: row `s`
/// lists, in strictly ascending order, exactly the ids of the rules whose
/// replacement references `s`, each exactly once.
pub open spec fn rev_index_wf(rev: FlatTable<u16>, rules: Seq<CfgRule>, total: int) -> bool {
    &&& rev.wf()
    &&& rev.rows@.len() == total
    &&& forall|s: int, j: int|
        0 <= s < total && 0 <= j < rev.spec_row(s).len() ==> (#[trigger] rev.spec_row(s)[j])
            < rules.len() && rule_mentions(rules[rev.spec_row(s)[j] as int], s)
    &&& forall|s: int, j1: int, j2: int|
        0 <= s < total && 0 <= j1 < j2 < rev.spec_row(s).len() ==> (#[trigger] rev.spec_row(s)[j1])
            < (#[trigger] rev.spec_row(s)[j2])
    &&& forall|s: int, id: int|
        #![trigger rev.spec_row(s), rules[id]]
        0 <= s < total && 0 <= id < rules.len() && rule_mentions(rules[id], s) ==> rev.spec_row(
            s,
        ).contains(id as u16)
}

/// The number of terminal symbols in a replacement word, occurrences
/// counted.
pub open spec fn count_terminals(repl: Seq<Symbol>, n: int) -> int
    decreases repl.len(),
{
    if repl.len() == 0 {
        0
    } else {
        count_terminals(repl.drop_last(), n) + if repl.last().id >= n {
            1int
        } else {
            0
        }
    }
}

/// The number of non-terminal symbols in a replacement word, occurrences
/// counted.
pub open spec fn count_non_terminals(repl: Seq<Symbol>, n: int) -> int
    decreases repl.len(),
{
    if repl.len() == 0 {
        0
    } else {
        count_non_terminals(repl.drop_last(), n) + if repl.last().id < n {
            1int
        } else {
            0
        }
    }
}

/// The set of non-terminal ids a replacement word references, duplicates
/// collapsed.
pub open spec fn distinct_non_terminals(repl: Seq<Symbol>, n: int) -> Set<int> {
    Set::new(
        |s: int|
            0 <= s < n && exists|j: int| 0 <= j < repl.len() && (#[trigger] repl[j]).id == s,
    )
}

/// The distinct non-terminals of a word form a finite set of at most `n`
/// ids.
pub proof fn lemma_distinct_nt_finite(repl: Seq<Symbol>, n: int)
    requires
        n >= 0,
    ensures
        distinct_non_terminals(repl, n).finite(),
        distinct_non_terminals(repl, n).len() <= n,
{
    let d = distinct_non_terminals(repl, n);
    vstd::set_lib::lemma_int_range(0, n);
    assert(d.subset_of(vstd::set_lib::set_int_range(0, n)));
    vstd::set_lib::lemma_set_subset_finite(vstd::set_lib::set_int_range(0, n), d);
    vstd::set_lib::lemma_len_subset(d, vstd::set_lib::set_int_range(0, n));
}

/// Reading one more symbol of the word adds its id to the distinct
/// non-terminal set exactly when the symbol is a non-terminal.
proof fn lemma_distinct_nt_take_step(repl: Seq<Symbol>, n: int, i: int)
    requires
        0 <= i < repl.len(),
    ensures
        distinct_non_terminals(repl.take(i + 1), n) == if repl[i].id < n {
            distinct_non_terminals(repl.take(i), n).insert(repl[i].id as int)
        } else {
            distinct_non_terminals(repl.take(i), n)
        },
{
    let a = distinct_non_terminals(repl.take(i + 1), n);
    let b0 = distinct_non_terminals(repl.take(i), n);
    let b = if repl[i].id < n {
        b0.insert(repl[i].id as int)
    } else {
        b0
    };
    assert forall|s: int| a.contains(s) implies b.contains(s) by {
        let j: int = choose|j: int| 0 <= j < repl.take(i + 1).len() && (#[trigger] repl.take(
            i + 1,
        )[j]).id == s;
        if j < i {
            assert(repl.take(i)[j].id == s);
        }
    }
    assert forall|s: int| b.contains(s) implies a.contains(s) by {
        if b0.contains(s) {
            let j: int = choose|j: int| 0 <= j < repl.take(i).len() && (#[trigger] repl.take(
                i,
            )[j]).id == s;
            assert(repl.take(i + 1)[j].id == s);
        } else {
            assert(repl.take(i + 1)[i].id == s);
        }
    }
    assert(a =~= b);
}

/// The first `p` symbols of the rule's replacement reference symbol id `s`.
pub open spec fn mentions_in_prefix(r: CfgRule, s: int, p: int) -> bool {
    exists|j: int| 0 <= j < p && (#[trigger] r.replacement@[j]).id == s
}

/// Reading one more replacement symbol extends the referenced prefix by that
/// symbol's id.
proof fn lemma_mip_step(r: CfgRule, s: int, p: int)
    requires
        0 <= p < r.replacement@.len(),
    ensures
        mentions_in_prefix(r, s, p + 1) == (mentions_in_prefix(r, s, p) || r.replacement@[p].id
            == s),
{
    if mentions_in_prefix(r, s, p + 1) {
        let j: int = choose|j: int| 0 <= j < p + 1 && (#[trigger] r.replacement@[j]).id == s;
        if j < p {
            assert(mentions_in_prefix(r, s, p));
        }
    }
    if mentions_in_prefix(r, s, p) {
        let j: int = choose|j: int| 0 <= j < p && (#[trigger] r.replacement@[j]).id == s;
        assert(mentions_in_prefix(r, s, p + 1));
    }
    if r.replacement@[p].id == s {
        assert(mentions_in_prefix(r, s, p + 1));
    }
}

/// The whole replacement references `s` exactly when some prefix-complete
/// reading does.
proof fn lemma_mip_full(r: CfgRule, s: int)
    ensures
        mentions_in_prefix(r, s, r.replacement@.len() as int) == rule_mentions(r, s),
{
    if mentions_in_prefix(r, s, r.replacement@.len() as int) {
        let j: int = choose|j: int|
            0 <= j < r.replacement@.len() && (#[trigger] r.replacement@[j]).id == s;
        assert(rule_mentions(r, s));
    }
    if rule_mentions(r, s) {
        let j: int = choose|j: int|
            0 <= j < r.replacement@.len() && (#[trigger] r.replacement@[j]).id == s;
        assert(mentions_in_prefix(r, s, r.replacement@.len() as int));
    }
}

/// The reverse-index buckets agree with the rules below `upto`: bucket `s`
/// holds, strictly ascending, exactly the ids below `upto` whose rule
/// references `s`.
pub open spec fn rev_buckets_ok(
    buckets: Seq<Vec<u16>>,
    rules: Seq<CfgRule>,
    total: int,
    upto: int,
) -> bool {
    &&& buckets.len() == total
    &&& forall|s: int, j: int|
        #![trigger buckets[s]@[j]]
        0 <= s < total && 0 <= j < buckets[s]@.len() ==> buckets[s]@[j] < upto && rule_mentions(
            rules[buckets[s]@[j] as int],
            s,
        )
    &&& forall|s: int, j1: int, j2: int|
        #![trigger buckets[s]@[j1], buckets[s]@[j2]]
        0 <= s < total && 0 <= j1 < j2 < buckets[s]@.len() ==> buckets[s]@[j1] < buckets[s]@[j2]
    &&& forall|s: int, rid: int|
        #![trigger buckets[s], rules[rid]]
        0 <= s < total && 0 <= rid < upto && rid < rules.len() && rule_mentions(rules[rid], s)
            ==> buckets[s]@.contains(rid as u16)
}

/// Symbol `s` can derive the empty word in a derivation tree of height at
/// most `k`: some rule with origin `s` has every replacement symbol nullable
/// within `k - 1`.  An epsilon rule makes its origin nullable within one
/// step.
pub open spec fn nullable_within(rules: Seq<CfgRule>, s: int, k: nat) -> bool
    decreases k,
{
    k > 0 && exists|r: int|
        #![trigger rules[r]]
        0 <= r < rules.len() && rules[r].origin.id == s && (forall|j: int|
            0 <= j < rules[r].replacement@.len() ==> nullable_within(
                rules,
                (#[trigger] rules[r].replacement@[j]).id as int,
                (k - 1) as nat,
            ))
}

/// Symbol `s` can derive the empty word.
pub open spec fn is_nullable(rules: Seq<CfgRule>, s: int) -> bool {
    exists|k: nat| nullable_within(rules, s, k)
}

/// The rule's replacement holds no terminal of a grammar with `n`
/// non-terminals.
pub open spec fn terminal_free(r: CfgRule, n: int) -> bool {
    forall|j: int| 0 <= j < r.replacement@.len() ==> (#[trigger] r.replacement@[j]).id < n
}

/// A derivation of bounded height is a derivation of any larger bound.
proof fn lemma_nullable_monotone(rules: Seq<CfgRule>, s: int, k1: nat, k2: nat)
    requires
        k1 <= k2,
        nullable_within(rules, s, k1),
    ensures
        nullable_within(rules, s, k2),
    decreases k1,
{
    let r: int = choose|r: int|
        #![trigger rules[r]]
        0 <= r < rules.len() && rules[r].origin.id == s && (forall|j: int|
            0 <= j < rules[r].replacement@.len() ==> nullable_within(
                rules,
                (#[trigger] rules[r].replacement@[j]).id as int,
                (k1 - 1) as nat,
            ));
    assert forall|j: int| 0 <= j < rules[r].replacement@.len() implies nullable_within(
        rules,
        (#[trigger] rules[r].replacement@[j]).id as int,
        (k2 - 1) as nat,
    ) by {
        lemma_nullable_monotone(
            rules,
            rules[r].replacement@[j].id as int,
            (k1 - 1) as nat,
            (k2 - 1) as nat,
        );
    }
    assert(nullable_within(rules, s, k2));
}

/// A common derivation-height bound for the first `p` symbols of a word of
/// nullable symbols.
proof fn lemma_common_rank(rules: Seq<CfgRule>, repl: Seq<Symbol>, p: int) -> (kk: nat)
    requires
        0 <= p <= repl.len(),
        forall|j: int| 0 <= j < p ==> is_nullable(rules, (#[trigger] repl[j]).id as int),
    ensures
        forall|j: int| 0 <= j < p ==> nullable_within(rules, (#[trigger] repl[j]).id as int, kk),
    decreases p,
{
    if p == 0 {
        0nat
    } else {
        let k1: nat = lemma_common_rank(rules, repl, p - 1);
        let ghost sid = repl[p - 1].id as int;
        assert(is_nullable(rules, sid));
        let k2: nat = choose|k2: nat| nullable_within(rules, sid, k2);
        let kk: nat = if k1 >= k2 {
            k1
        } else {
            k2
        };
        assert forall|j: int| 0 <= j < p implies nullable_within(
            rules,
            (#[trigger] repl[j]).id as int,
            kk,
        ) by {
            if j < p - 1 {
                lemma_nullable_monotone(rules, repl[j].id as int, k1, kk);
            } else {
                lemma_nullable_monotone(rules, sid, k2, kk);
            }
        }
        kk
    }
}

/// A set of symbol ids closed under the rules: whenever every replacement
/// symbol of a rule belongs to the set, so does the rule's origin.
pub open spec fn closed_under_rules(rules: Seq<CfgRule>, m: Set<int>) -> bool {
    forall|rid: int|
        0 <= rid < rules.len() && (forall|j: int|
            0 <= j < (#[trigger] rules[rid]).replacement@.len() ==> m.contains(
                (#[trigger] rules[rid].replacement@[j]).id as int,
            )) ==> m.contains(rules[rid].origin.id as int)
}

/// Every nullable symbol belongs to every set closed under the rules: the
/// nullable set is the least fixpoint.
pub proof fn lemma_nullable_in_closed(rules: Seq<CfgRule>, m: Set<int>, s: int, k: nat)
    requires
        closed_under_rules(rules, m),
        nullable_within(rules, s, k),
    ensures
        m.contains(s),
    decreases k,
{
    let r: int = choose|r: int|
        #![trigger rules[r]]
        0 <= r < rules.len() && rules[r].origin.id == s && (forall|j: int|
            0 <= j < rules[r].replacement@.len() ==> nullable_within(
                rules,
                (#[trigger] rules[r].replacement@[j]).id as int,
                (k - 1) as nat,
            ));
    assert forall|j: int| 0 <= j < rules[r].replacement@.len() implies m.contains(
        (#[trigger] rules[r].replacement@[j]).id as int,
    ) by {
        lemma_nullable_in_closed(rules, m, rules[r].replacement@[j].id as int, (k - 1) as nat);
    }
    assert(m.contains(rules[r].origin.id as int));
}

/// A rule whose replacement symbols are all nullable makes its origin
/// nullable: the nullable set is closed under the rules.
pub proof fn lemma_rule_firing(rules: Seq<CfgRule>, rid: int)
    requires
        0 <= rid < rules.len(),
        forall|j: int|
            0 <= j < rules[rid].replacement@.len() ==> is_nullable(
                rules,
                (#[trigger] rules[rid].replacement@[j]).id as int,
            ),
    ensures
        is_nullable(rules, rules[rid].origin.id as int),
{
    let kk: nat = lemma_common_rank(
        rules,
        rules[rid].replacement@,
        rules[rid].replacement@.len() as int,
    );
    assert(nullable_within(rules, rules[rid].origin.id as int, kk + 1));
}

/// Terminals derive themselves and nothing else: no rule has a terminal
/// origin, so a terminal is never nullable.
pub proof fn lemma_terminal_not_nullable(rules: Seq<CfgRule>, n: int, total: int, s: int)
    requires
        all_rules_valid(rules, n, total),
        s >= n,
    ensures
        !is_nullable(rules, s),
{
    assert forall|k: nat| !nullable_within(rules, s, k) by {
        if nullable_within(rules, s, k) {
            let r: int = choose|r: int|
                #![trigger rules[r]]
                0 <= r < rules.len() && rules[r].origin.id == s && (forall|j: int|
                    0 <= j < rules[r].replacement@.len() ==> nullable_within(
                        rules,
                        (#[trigger] rules[r].replacement@[j]).id as int,
                        (k - 1) as nat,
                    ));
            assert(rule_valid(rules[r], n, total));
        }
    }
}

/// A word holds no terminal exactly when its terminal count is zero.
proof fn lemma_count_terminals_zero(repl: Seq<Symbol>, n: int)
    ensures
        (count_terminals(repl, n) == 0) == (forall|j: int|
            0 <= j < repl.len() ==> (#[trigger] repl[j]).id < n),
        count_terminals(repl, n) >= 0,
    decreases repl.len(),
{
    if repl.len() > 0 {
        lemma_count_terminals_zero(repl.drop_last(), n);
        if count_terminals(repl, n) == 0 {
            assert forall|j: int| 0 <= j < repl.len() implies (#[trigger] repl[j]).id < n by {
                if j < repl.len() - 1 {
                    assert(repl.drop_last()[j].id < n);
                }
            }
        } else {
            if forall|j: int| 0 <= j < repl.len() ==> (#[trigger] repl[j]).id < n {
                assert forall|j: int|
                    0 <= j < repl.drop_last().len() implies (#[trigger] repl.drop_last()[j]).id
                    < n by {
                    assert(repl[j].id < n);
                }
            }
        }
    }
}

/// The running state of the fixpoint: marked symbols are in-range and
/// nullable, and the worklist holds marked symbols only, each at most once.
pub open spec fn worklist_ok(bs: Seq<bool>, stack: Seq<u16>, rules: Seq<CfgRule>, n: int) -> bool {
    &&& bs.len() == n
    &&& forall|i: int|
        0 <= i < stack.len() ==> (#[trigger] stack[i]) < n && bs[stack[i] as int]
    &&& forall|i: int, j: int| 0 <= i < j < stack.len() ==> stack[i] != stack[j]
    &&& forall|s: int| 0 <= s < n && (#[trigger] bs[s]) ==> is_nullable(rules, s)
}

/// Pushing onto a sequence adds exactly the pushed element to its contents.
proof fn lemma_seq_push_contains<T>(s: Seq<T>, v: T, x: T)
    ensures
        s.push(v).contains(x) == (s.contains(x) || x == v),
{
    if s.push(v).contains(x) {
        let i: int = choose|i: int| 0 <= i < s.push(v).len() && s.push(v)[i] == x;
        if i < s.len() {
            assert(s[i] == x);
        }
    }
    if s.contains(x) {
        let i: int = choose|i: int| 0 <= i < s.len() && s[i] == x;
        assert(s.push(v)[i] == x);
    }
    if x == v {
        assert(s.push(v)[s.len() as int] == x);
    }
}

/// The marked non-terminal ids of a bit sequence.
pub open spec fn marked_ids(bs: Seq<bool>) -> Set<int> {
    Set::new(|s: int| 0 <= s < bs.len() && bs[s])
}

/// The ids a worklist holds.
pub open spec fn stack_ids(q: Seq<u16>) -> Set<int> {
    Set::new(|x: int| exists|i: int| 0 <= i < q.len() && (#[trigger] q[i]) == x)
}

/// Pushing onto the worklist adds exactly the pushed id.
proof fn lemma_stack_ids_push(q: Seq<u16>, x: u16)
    ensures
        stack_ids(q.push(x)) == stack_ids(q).insert(x as int),
{
    let a = stack_ids(q.push(x));
    let b = stack_ids(q).insert(x as int);
    assert forall|y: int| a.contains(y) implies b.contains(y) by {
        let i: int = choose|i: int| 0 <= i < q.push(x).len() && (#[trigger] q.push(x)[i]) == y;
        if i < q.len() {
            assert(q[i] == y);
        }
    }
    assert forall|y: int| b.contains(y) implies a.contains(y) by {
        if y == x as int {
            assert(q.push(x)[q.len() as int] == x);
        } else {
            let i: int = choose|i: int| 0 <= i < q.len() && (#[trigger] q[i]) == y;
            assert(q.push(x)[i] == y);
        }
    }
    assert(a =~= b);
}

/// The marked ids form a finite set of at most `bs.len()` ids.
proof fn lemma_marked_ids_finite(bs: Seq<bool>)
    ensures
        marked_ids(bs).finite(),
        marked_ids(bs).len() <= bs.len(),
{
    let m = marked_ids(bs);
    vstd::set_lib::lemma_int_range(0, bs.len() as int);
    assert(m.subset_of(vstd::set_lib::set_int_range(0, bs.len() as int)));
    vstd::set_lib::lemma_set_subset_finite(vstd::set_lib::set_int_range(0, bs.len() as int), m);
    vstd::set_lib::lemma_len_subset(m, vstd::set_lib::set_int_range(0, bs.len() as int));
}

/// Taking one more id out of the unprocessed pool shrinks a difference set
/// by removing that id.
proof fn lemma_diff_insert_remove(x: Set<int>, p: Set<int>, s: int)
    ensures
        x.difference(p.insert(s)) == x.difference(p).remove(s),
{
    assert(x.difference(p.insert(s)) =~= x.difference(p).remove(s));
}

/// A finite empty difference means inclusion.
proof fn lemma_empty_diff(x: Set<int>, p: Set<int>)
    requires
        x.difference(p).finite(),
        x.difference(p).len() == 0,
    ensures
        forall|e: int| x.contains(e) ==> p.contains(e),
{
    x.difference(p).lemma_len0_is_empty();
    assert forall|e: int| x.contains(e) implies p.contains(e) by {
        assert(!x.difference(p).contains(e));
    }
}

/// An augmented context-free grammar: its symbol sets and its rules, sorted
/// by origin so that all rules sharing an origin occupy one contiguous span
/// of the flat rule table.  The reverse production index and the nullable
/// set are derived values, each computed at most once, on first use.
pub struct Cfg {
    symbol_set: CfgSymbolSet,
    rules: FlatTable<CfgRule>,
    rules_producing_each_symbol: Option<FlatTable<u16>>,
    are_symbols_nullable: Option<BitSet<Vec<u8>>>,
}

impl Cfg {
    /// The symbol sets of the grammar.
    pub closed spec fn spec_symbol_set(&self) -> CfgSymbolSet {
        self.symbol_set
    }

    /// The rules of the grammar, by rule id.
    pub closed spec fn spec_rules(&self) -> Seq<CfgRule> {
        self.rules.table@
    }

    /// The number of non-terminals.
    pub open spec fn spec_nbr_non_terminals(&self) -> int {
        self.spec_symbol_set().spec_non_terminals().len() as int
    }

    /// The number of terminals.
    pub open spec fn spec_nbr_terminals(&self) -> int {
        self.spec_symbol_set().spec_terminals().len() as int
    }

    /// The number of symbols: non-terminals and terminals together.
    pub open spec fn spec_nbr_symbols(&self) -> int {
        self.spec_nbr_non_terminals() + self.spec_nbr_terminals()
    }

    /// The invariant established at construction and never violated
    /// afterwards: the symbol sets are well formed, every rule fits the
    /// grammar, the rule table is grouped by origin with a well-formed row
    /// table, and each memoized derived value, once present, agrees with its
    /// mathematical definition.
    pub closed spec fn wf(&self) -> bool {
        &&& self.symbol_set.wf()
        &&& self.rules.wf()
        &&& self.rules.rows@.len() == self.spec_nbr_non_terminals()
        &&& self.rules.rows@[0] == 0
        &&& forall|o: int, j: int|
            0 <= o < self.spec_nbr_non_terminals() && 0 <= j < self.rules.spec_row(o).len()
                ==> (#[trigger] self.rules.spec_row(o)[j]).origin.id == o
        &&& all_rules_valid(self.spec_rules(), self.spec_nbr_non_terminals(), self.spec_nbr_symbols())
        &&& total_replacement_len(self.spec_rules(), self.spec_rules().len() as int) <= u16::MAX
        &&& match self.rules_producing_each_symbol {
            Some(rev) => rev_index_wf(
                rev,
                self.spec_rules(),
                self.spec_nbr_symbols(),
            ),
            None => true,
        }
        &&& match self.are_symbols_nullable {
            Some(bs) => {
                &&& bs.wf()
                &&& bs.spec_size() == self.spec_nbr_non_terminals()
                &&& forall|s: int|
                    0 <= s < self.spec_nbr_non_terminals() ==> bs@[s] == is_nullable(
                        self.spec_rules(),
                        s,
                    )
            },
            None => true,
        }
    }

    /// Build a grammar from its symbol sets and an unordered rule
    /// collection.  Construction validates every rule and fails on the first
    /// offending one, in input order, checking each rule's origin before its
    /// replacement; on success the rules are stably sorted by origin id and
    /// the row table of the compressed-sparse-row layout is derived.
    pub fn new(symbol_set: CfgSymbolSet, rules: Vec<CfgRule>) -> (r: Result<Cfg, CfgError>)
        requires
            symbol_set.wf(),
            rules@.len() <= u16::MAX,
            total_replacement_len(rules@, rules@.len() as int) <= u16::MAX,
        ensures
            (r is Ok) == all_rules_valid(
                rules@,
                symbol_set.spec_non_terminals().len() as int,
                (symbol_set.spec_non_terminals().len() + symbol_set.spec_terminals().len()) as int,
            ),
            match r {
                Ok(cfg) => {
                    &&& cfg.wf()
                    &&& cfg.spec_symbol_set() == symbol_set
                    &&& cfg.spec_rules() == sort_by_origin(
                        rules@,
                        symbol_set.spec_non_terminals().len() as int,
                    )
                },
                Err(CfgError::InvalidRuleOrigin { rule }) => {
                    &&& rules@.contains(rule)
                    &&& rule.origin.id >= symbol_set.spec_non_terminals().len()
                },
                Err(CfgError::InvalidRuleReplacement { rule, symbol }) => {
                    &&& rules@.contains(rule)
                    &&& rule.replacement@.contains(symbol)
                    &&& symbol.id >= symbol_set.spec_non_terminals().len()
                        + symbol_set.spec_terminals().len()
                },
            },
    {
        let ghost orig = rules@;
        let mut work = rules;
        let n: u16 = symbol_set.offset_terminals();
        let nbr_terminals: u16 = symbol_set.get_terminals().size();
        let total: u16 = n + nbr_terminals;

        // Validation: reject the first rule whose origin is not a
        // non-terminal id, or whose replacement holds an out-of-range id.
        let mut i: usize = 0;
        while i < work.len()
            invariant
                orig == rules@,
                work@ == orig,
                i <= orig.len(),
                n == symbol_set.spec_non_terminals().len(),
                total == symbol_set.spec_non_terminals().len()
                    + symbol_set.spec_terminals().len(),
                forall|idx: int| 0 <= idx < i ==> rule_valid(#[trigger] orig[idx], n as int, total as int),
            decreases orig.len() - i,
        {
            let oid: u16 = work[i].origin.id;
            if oid >= n {
                let rule: CfgRule = work.remove(i);
                proof {
                    assert(orig[i as int] == rule);
                    assert(orig.contains(rule));
                    assert(!rule_valid(rule, n as int, total as int));
                    assert(!all_rules_valid(orig, n as int, total as int));
                }
                return Err(CfgError::InvalidRuleOrigin { rule });
            }
            let mut j: usize = 0;
            while j < work[i].replacement.len()
                invariant
                    orig == rules@,
                work@ == orig,
                    i < orig.len(),
                    j <= orig[i as int].replacement@.len(),
                    n == symbol_set.spec_non_terminals().len(),
                    total == symbol_set.spec_non_terminals().len()
                        + symbol_set.spec_terminals().len(),
                    forall|idx: int|
                        0 <= idx < j ==> (#[trigger] orig[i as int].replacement@[idx]).id
                            < total,
                decreases orig[i as int].replacement@.len() - j,
            {
                let sid: u16 = work[i].replacement[j].id;
                if sid >= total {
                    let symbol: Symbol = work[i].replacement[j];
                    let rule: CfgRule = work.remove(i);
                    proof {
                        assert(orig[i as int] == rule);
                        assert(orig.contains(rule));
                        assert(rule.replacement@[j as int] == symbol);
                        assert(rule.replacement@.contains(symbol));
                        assert(!rule_valid(rule, n as int, total as int));
                        assert(!all_rules_valid(orig, n as int, total as int));
                    }
                    return Err(CfgError::InvalidRuleReplacement { rule, symbol });
                }
                j = j + 1;
            }
            i = i + 1;
        }

        // Stable bucket sort by origin: one pass moves each rule, in input
        // order, to the bucket of its origin.
        let mut buckets: Vec<Vec<CfgRule>> = Vec::new();
        let mut o: usize = 0;
        while o < n as usize
            invariant
                o <= n,
                buckets@.len() == o,
                forall|b: int| 0 <= b < o ==> (#[trigger] buckets@[b])@ =~= Seq::<CfgRule>::empty(),
            decreases n - o,
        {
            buckets.push(Vec::new());
            o = o + 1;
        }
        proof {
            reveal(Seq::filter);
            lemma_sum_lens_all_empty(buckets@, n as int);
            assert forall|b: int| 0 <= b < n implies (#[trigger] buckets@[b])@ == orig.subrange(
                0,
                0,
            ).filter(is_origin(b)) by {
                assert(orig.subrange(0, 0).len() == 0);
                assert(orig.subrange(0, 0).filter(is_origin(b)) == orig.subrange(0, 0));
                assert(buckets@[b]@ =~= orig.subrange(0, 0));
            }
        }
        let mut step: usize = 0;
        while work.len() > 0
            invariant
                step <= orig.len(),
                orig == rules@,
                work@ =~= orig.subrange(step as int, orig.len() as int),
                n == symbol_set.spec_non_terminals().len(),
                total == symbol_set.spec_non_terminals().len()
                    + symbol_set.spec_terminals().len(),
                all_rules_valid(orig, n as int, total as int),
                orig.len() <= u16::MAX,
                buckets@.len() == n,
                sum_lens(buckets@, n as int) == step,
                forall|b: int|
                    0 <= b < n ==> (#[trigger] buckets@[b])@ == orig.subrange(
                        0,
                        step as int,
                    ).filter(is_origin(b)),
                forall|b: int, j: int|
                    #![trigger buckets@[b]@[j]]
                    0 <= b < n && 0 <= j < buckets@[b]@.len() ==> rule_valid(
                        buckets@[b]@[j],
                        n as int,
                        total as int,
                    ),
            decreases work@.len(),
        {
            let ghost buckets_before = buckets@;
            let ghost prefix = orig.subrange(0, step as int);
            let rule: CfgRule = work.remove(0);
            proof {
                assert(rule == orig[step as int]);
                assert(work@ =~= orig.subrange(step as int + 1, orig.len() as int));
                assert(rule_valid(orig[step as int], n as int, total as int));
            }
            let o: usize = rule.origin.id as usize;
            let mut b: Vec<CfgRule> = Vec::new();
            buckets.set_and_swap(o, &mut b);
            b.push(rule);
            buckets.set_and_swap(o, &mut b);
            step = step + 1;
            proof {
                let ghost new_prefix = orig.subrange(0, step as int);
                assert(new_prefix =~= prefix.push(orig[step as int - 1]));
                lemma_sum_lens_update(buckets_before, buckets@, o as int, n as int);
                assert forall|bb: int| 0 <= bb < n implies (#[trigger] buckets@[bb])@
                    == new_prefix.filter(is_origin(bb)) by {
                    prefix.lemma_filter_push(orig[step as int - 1], is_origin(bb));
                    if bb != o {
                        assert(buckets@[bb] == buckets_before[bb]);
                    }
                }
            }
        }
        proof {
            assert(orig.subrange(0, step as int) =~= orig);
            assert(step == orig.len());
        }

        let ghost bks = buckets@;
        let flat: FlatTable<CfgRule> = FlatTable::from_vec_vec(buckets);
        let cfg = Cfg {
            symbol_set,
            rules: flat,
            rules_producing_each_symbol: None,
            are_symbols_nullable: None,
        };
        proof {
            assert forall|b: int| 0 <= b < n implies (#[trigger] bks[b])@ == rules_with_origin(
                orig,
                b,
            ) by {
                assert(orig.subrange(0, step as int) == orig);
            }
            assert forall|i: int| 0 <= i < n implies cfg.rules.spec_row_start(i) == prefix_len(
                orig,
                i,
            ) by {
                lemma_sum_lens_is_prefix_len(bks, orig, i);
            }
            lemma_sum_lens_is_prefix_len(bks, orig, n as int);
            lemma_sorted_prefix(cfg.rules, orig, n as int, n as int);
            assert(cfg.rules.table@.subrange(0, cfg.rules.table@.len() as int)
                =~= cfg.rules.table@);
            assert(cfg.spec_rules() == sort_by_origin(orig, n as int));
            assert(cfg.rules.spec_row_start(0) == prefix_len(orig, 0));
            assert(cfg.rules.rows@[0] == 0);
            assert forall|oo: int, j: int|
                0 <= oo < n && 0 <= j < cfg.rules.spec_row(oo).len() implies (
            #[trigger] cfg.rules.spec_row(oo)[j]).origin.id == oo by {
                orig.lemma_filter_pred(is_origin(oo), j);
            }
            assert forall|id: int| 0 <= id < cfg.spec_rules().len() implies rule_valid(
                #[trigger] cfg.spec_rules()[id],
                n as int,
                total as int,
            ) by {
                lemma_sort_by_origin_element(orig, n as int, n as int, id);
                let k: int = choose|k: int|
                    0 <= k < orig.len() && orig[k] == cfg.spec_rules()[id];
                assert(rule_valid(orig[k], n as int, total as int));
            }
            lemma_sort_trl(orig, n as int);
            lemma_trl_below_all_valid(orig, n as int, total as int, orig.len() as int);
        }
        Ok(cfg)
    }

    pub fn get_symbol_set(&self) -> (r: &CfgSymbolSet)
        ensures
            *r == self.spec_symbol_set(),
    {
        &self.symbol_set
    }

    pub fn nbr_non_terminals(&self) -> (r: u16)
        requires
            self.wf(),
        ensures
            r == self.spec_nbr_non_terminals(),
    {
        self.symbol_set.offset_terminals()
    }

    pub fn nbr_terminals(&self) -> (r: u16)
        requires
            self.wf(),
        ensures
            r == self.spec_nbr_terminals(),
    {
        self.symbol_set.get_terminals().size()
    }

    pub fn nbr_symbols(&self) -> (r: u16)
        requires
            self.wf(),
        ensures
            r == self.spec_nbr_symbols(),
    {
        self.nbr_non_terminals() + self.nbr_terminals()
    }

    /// All non-terminal symbols, by ascending id.
    pub fn all_non_terminals(&self) -> (r: Vec<Symbol>)
        requires
            self.wf(),
        ensures
            r@.len() == self.spec_nbr_non_terminals(),
            forall|i: int| 0 <= i < r@.len() ==> (#[trigger] r@[i]).id == i,
    {
        let n: u16 = self.nbr_non_terminals();
        self.symbol_range(0, n)
    }

    /// All terminal symbols, by ascending id.
    pub fn all_terminals(&self) -> (r: Vec<Symbol>)
        requires
            self.wf(),
        ensures
            r@.len() == self.spec_nbr_terminals(),
            forall|i: int|
                0 <= i < r@.len() ==> (#[trigger] r@[i]).id == self.spec_nbr_non_terminals() + i,
    {
        let n: u16 = self.nbr_non_terminals();
        let total: u16 = self.nbr_symbols();
        self.symbol_range(n, total)
    }

    /// All symbols, by ascending id: first the non-terminals, then the
    /// terminals.
    pub fn all_symbols(&self) -> (r: Vec<Symbol>)
        requires
            self.wf(),
        ensures
            r@.len() == self.spec_nbr_symbols(),
            forall|i: int| 0 <= i < r@.len() ==> (#[trigger] r@[i]).id == i,
    {
        let total: u16 = self.nbr_symbols();
        self.symbol_range(0, total)
    }

    /// The symbols with ids in `[lo, hi)`, ascending.
    fn symbol_range(&self, lo: u16, hi: u16) -> (r: Vec<Symbol>)
        requires
            lo <= hi,
        ensures
            r@.len() == hi - lo,
            forall|i: int| 0 <= i < r@.len() ==> (#[trigger] r@[i]).id == lo + i,
    {
        let mut out: Vec<Symbol> = Vec::new();
        let mut id: u16 = lo;
        while id < hi
            invariant
                lo <= id <= hi,
                out@.len() == id - lo,
                forall|i: int| 0 <= i < out@.len() ==> (#[trigger] out@[i]).id == lo + i,
            decreases hi - id,
        {
            out.push(Symbol { id });
            id = id + 1;
        }
        out
    }

    /// A symbol of this grammar is a terminal iff its id lies in the upper,
    /// terminal range.
    pub fn is_terminal(&self, symbol: Symbol) -> (r: bool)
        requires
            self.wf(),
        ensures
            r == (symbol.id >= self.spec_nbr_non_terminals()),
    {
        symbol.id >= self.nbr_non_terminals()
    }

    /// A symbol of this grammar is a non-terminal iff its id lies in the
    /// lower, non-terminal range.
    pub fn is_non_terminal(&self, symbol: Symbol) -> (r: bool)
        requires
            self.wf(),
        ensures
            r == (symbol.id < self.spec_nbr_non_terminals()),
    {
        symbol.id < self.nbr_non_terminals()
    }

    /// The rule with the given id.
    fn get_rule_by_id(&self, id: u16) -> (r: &CfgRule)
        requires
            self.wf(),
            id < self.spec_rules().len(),
        ensures
            *r == self.spec_rules()[id as int],
    {
        self.rules.get_by_id(id)
    }

    pub fn nbr_rules(&self) -> (r: u16)
        requires
            self.wf(),
        ensures
            r == self.spec_rules().len(),
    {
        self.rules.size()
    }

    /// All rules, by ascending rule id.
    pub fn all_rules(&self) -> (r: &Vec<CfgRule>)
        ensures
            r@ == self.spec_rules(),
    {
        &self.rules.table
    }

    /// A rule id lies in the row span of its own origin.
    proof fn lemma_id_in_own_span(&self, id: int)
        requires
            self.wf(),
            0 <= id < self.spec_rules().len(),
        ensures
            self.rules.spec_row_start(self.spec_rules()[id].origin.id as int) <= id,
            id < self.rules.spec_row_end(self.spec_rules()[id].origin.id as int),
    {
        self.lemma_span_search(id, 0);
        let oo: int = choose|oo: int|
            #![trigger self.rules.spec_row_start(oo)]
            0 <= oo < self.spec_nbr_non_terminals() && self.rules.spec_row_start(oo) <= id
                < self.rules.spec_row_end(oo);
        assert(self.rules.spec_row(oo)[id - self.rules.spec_row_start(oo)] == self.spec_rules()[id]);
        assert(self.spec_rules()[id].origin.id == oo);
    }

    /// Some row span contains the given rule id: spans start at zero and
    /// tile the rule table.
    proof fn lemma_span_search(&self, id: int, o: int)
        requires
            self.wf(),
            0 <= id < self.spec_rules().len(),
            0 <= o < self.spec_nbr_non_terminals(),
            self.rules.spec_row_start(o) <= id,
        ensures
            exists|oo: int|
                #![trigger self.rules.spec_row_start(oo)]
                0 <= oo < self.spec_nbr_non_terminals() && self.rules.spec_row_start(oo) <= id
                    < self.rules.spec_row_end(oo),
        decreases self.spec_nbr_non_terminals() - o,
    {
        if id < self.rules.spec_row_end(o) {
            assert(self.rules.spec_row_start(o) <= id < self.rules.spec_row_end(o));
        } else {
            assert(o + 1 < self.spec_nbr_non_terminals());
            self.lemma_span_search(id, o + 1);
        }
    }

    /// The number of terminals, the number of non-terminals, and the number
    /// of distinct non-terminals occurring in the rule's replacement.
    pub fn count_symbols_in_rule(&self, rule: &CfgRule) -> (r: (usize, usize, u16))
        requires
            self.wf(),
            rule_valid(*rule, self.spec_nbr_non_terminals(), self.spec_nbr_symbols()),
        ensures
            r.0 == count_terminals(rule.replacement@, self.spec_nbr_non_terminals()),
            r.1 == count_non_terminals(rule.replacement@, self.spec_nbr_non_terminals()),
            r.2 == distinct_non_terminals(rule.replacement@, self.spec_nbr_non_terminals()).len(),
    {
        let n16: u16 = self.nbr_non_terminals();
        let n: usize = n16 as usize;
        let mut term: usize = 0;
        let mut non_term: usize = 0;
        let mut dist: u16 = 0;
        let mut seen: BitSet<Vec<u8>> = BitSet::new_filled(false, n);
        let len: usize = rule.replacement.len();
        let mut i: usize = 0;
        proof {
            assert(rule.replacement@.take(0) =~= Seq::<Symbol>::empty());
            assert(distinct_non_terminals(rule.replacement@.take(0), n as int)
                =~= Set::<int>::empty());
        }
        while i < len
            invariant
                n16 == n,
                n >= 0,
                rule_valid(*rule, n as int, n as int + self.spec_nbr_terminals()),
                len == rule.replacement@.len(),
                i <= len,
                seen.wf(),
                seen.spec_size() == n,
                term <= i,
                non_term <= i,
                term == count_terminals(rule.replacement@.take(i as int), n as int),
                non_term == count_non_terminals(rule.replacement@.take(i as int), n as int),
                distinct_non_terminals(rule.replacement@.take(i as int), n as int).finite(),
                dist == distinct_non_terminals(rule.replacement@.take(i as int), n as int).len(),
                forall|s: int|
                    0 <= s < n ==> seen@[s] == distinct_non_terminals(
                        rule.replacement@.take(i as int),
                        n as int,
                    ).contains(s),
            decreases len - i,
        {
            let sym: Symbol = rule.replacement[i];
            let ghost prev = distinct_non_terminals(rule.replacement@.take(i as int), n as int);
            proof {
                lemma_distinct_nt_take_step(rule.replacement@, n as int, i as int);
                assert(rule.replacement@.take(i as int + 1).drop_last() =~= rule.replacement@.take(
                    i as int,
                ));
                assert(rule.replacement@.take(i as int + 1).last() == sym);
            }
            if sym.id >= n16 {
                term = term + 1;
            } else {
                non_term = non_term + 1;
                if !seen.contains(sym.id as usize) {
                    proof {
                        vstd::set::axiom_set_insert_len(prev, sym.id as int);
                        lemma_distinct_nt_finite(
                            rule.replacement@.take(i as int + 1),
                            n as int,
                        );
                    }
                    dist = dist + 1;
                    seen.insert(sym.id as usize);
                } else {
                    proof {
                        assert(prev.insert(sym.id as int) =~= prev);
                    }
                }
            }
            i = i + 1;
        }
        proof {
            assert(rule.replacement@.take(len as int) =~= rule.replacement@);
        }
        (term, non_term, dist)
    }

    /// Build the reverse production index: for each symbol, the ids of the
    /// rules whose replacement references it, each recorded once however
    /// often the rule repeats the symbol.
    #[verifier::rlimit(100)]
    fn compute_rules_producing_each_symbol(&self) -> (rev: FlatTable<u16>)
        requires
            self.wf(),
        ensures
            rev_index_wf(rev, self.spec_rules(), self.spec_nbr_symbols()),
    {
        let total: u16 = self.nbr_symbols();
        let nbr_rules: u16 = self.nbr_rules();
        let mut buckets: Vec<Vec<u16>> = Vec::new();
        let mut s: usize = 0;
        while s < total as usize
            invariant
                s <= total,
                buckets@.len() == s,
                forall|b: int| 0 <= b < s ==> (#[trigger] buckets@[b])@.len() == 0,
            decreases total - s,
        {
            buckets.push(Vec::new());
            s = s + 1;
        }
        proof {
            lemma_sum_lens_all_empty(buckets@, total as int);
        }
        let mut id: u16 = 0;
        while id < nbr_rules
            invariant
                self.wf(),
                total == self.spec_nbr_symbols(),
                nbr_rules == self.spec_rules().len(),
                id <= nbr_rules,
                sum_lens(buckets@, total as int) <= total_replacement_len(
                    self.spec_rules(),
                    id as int,
                ),
                rev_buckets_ok(buckets@, self.spec_rules(), total as int, id as int),
            decreases nbr_rules - id,
        {
            let ghost base = buckets@;
            let rule: &CfgRule = self.get_rule_by_id(id);
            let repl_len: usize = rule.replacement.len();
            let mut p: usize = 0;
            while p < repl_len
                invariant
                    self.wf(),
                    total == self.spec_nbr_symbols(),
                    nbr_rules == self.spec_rules().len(),
                    id < nbr_rules,
                    *rule == self.spec_rules()[id as int],
                    repl_len == rule.replacement@.len(),
                    p <= repl_len,
                    rev_buckets_ok(base, self.spec_rules(), total as int, id as int),
                    sum_lens(base, total as int) <= total_replacement_len(
                        self.spec_rules(),
                        id as int,
                    ),
                    buckets@.len() == total,
                    sum_lens(buckets@, total as int) <= sum_lens(base, total as int) + p,
                    forall|s: int|
                        0 <= s < total ==> (#[trigger] buckets@[s])@ == (if mentions_in_prefix(
                            self.spec_rules()[id as int],
                            s,
                            p as int,
                        ) {
                            base[s]@.push(id)
                        } else {
                            base[s]@
                        }),
                decreases repl_len - p,
            {
                let sym: Symbol = rule.replacement[p];
                proof {
                    assert(rule_valid(
                        self.spec_rules()[id as int],
                        self.spec_nbr_non_terminals(),
                        total as int,
                    ));
                    assert(sym.id < total);
                }
                let s0: usize = sym.id as usize;
                let bl: usize = buckets[s0].len();
                let already: bool = bl > 0 && buckets[s0][bl - 1] == id;
                proof {
                    lemma_mip_step(self.spec_rules()[id as int], s0 as int, p as int);
                    if already {
                        // The bucket ends in this rule id, so the id was
                        // recorded at an earlier occurrence of the symbol.
                        if !mentions_in_prefix(self.spec_rules()[id as int], s0 as int, p as int) {
                            assert(buckets@[s0 as int]@ == base[s0 as int]@);
                            assert(base[s0 as int]@[bl - 1] < id);
                            assert(false);
                        }
                    } else {
                        if mentions_in_prefix(self.spec_rules()[id as int], s0 as int, p as int) {
                            assert(buckets@[s0 as int]@ == base[s0 as int]@.push(id));
                            assert(buckets@[s0 as int]@[bl - 1] == id);
                            assert(false);
                        }
                    }
                }
                if !already {
                    let ghost before = buckets@;
                    let mut b: Vec<u16> = Vec::new();
                    buckets.set_and_swap(s0, &mut b);
                    b.push(id);
                    buckets.set_and_swap(s0, &mut b);
                    proof {
                        lemma_sum_lens_update(before, buckets@, s0 as int, total as int);
                        assert forall|s: int| 0 <= s < total implies (#[trigger] buckets@[s])@
                            == (if mentions_in_prefix(
                            self.spec_rules()[id as int],
                            s,
                            p as int + 1,
                        ) {
                            base[s]@.push(id)
                        } else {
                            base[s]@
                        }) by {
                            lemma_mip_step(self.spec_rules()[id as int], s, p as int);
                            if s != s0 {
                                assert(buckets@[s] == before[s]);
                            }
                        }
                    }
                } else {
                    proof {
                        assert forall|s: int| 0 <= s < total implies (#[trigger] buckets@[s])@
                            == (if mentions_in_prefix(
                            self.spec_rules()[id as int],
                            s,
                            p as int + 1,
                        ) {
                            base[s]@.push(id)
                        } else {
                            base[s]@
                        }) by {
                            lemma_mip_step(self.spec_rules()[id as int], s, p as int);
                        }
                    }
                }
                p = p + 1;
            }
            id = id + 1;
            proof {
                assert(total_replacement_len(self.spec_rules(), id as int)
                    == total_replacement_len(self.spec_rules(), id as int - 1)
                    + self.spec_rules()[id as int - 1].replacement@.len());
                assert forall|s: int, j: int|
                    #![trigger buckets@[s]@[j]]
                    0 <= s < total && 0 <= j < buckets@[s]@.len() implies buckets@[s]@[j] < id
                    && rule_mentions(
                    self.spec_rules()[buckets@[s]@[j] as int],
                    s,
                ) by {
                    lemma_mip_full(self.spec_rules()[id as int - 1], s);
                    if mentions_in_prefix(
                        self.spec_rules()[id as int - 1],
                        s,
                        repl_len as int,
                    ) {
                        assert(buckets@[s]@ == base[s]@.push((id - 1) as u16));
                        if j < buckets@[s]@.len() - 1 {
                            assert(buckets@[s]@[j] == base[s]@[j]);
                        }
                    } else {
                        assert(buckets@[s]@ == base[s]@);
                    }
                }
                assert forall|s: int, j1: int, j2: int|
                    #![trigger buckets@[s]@[j1], buckets@[s]@[j2]]
                    0 <= s < total && 0 <= j1 < j2 < buckets@[s]@.len() implies buckets@[s]@[j1]
                    < buckets@[s]@[j2] by {
                    if mentions_in_prefix(
                        self.spec_rules()[id as int - 1],
                        s,
                        repl_len as int,
                    ) {
                        assert(buckets@[s]@ == base[s]@.push((id - 1) as u16));
                        if j2 < buckets@[s]@.len() - 1 {
                            assert(buckets@[s]@[j1] == base[s]@[j1]);
                            assert(buckets@[s]@[j2] == base[s]@[j2]);
                        } else {
                            assert(buckets@[s]@[j1] == base[s]@[j1]);
                            assert(base[s]@[j1] < id - 1 || base[s]@.len() == 0);
                        }
                    } else {
                        assert(buckets@[s]@ == base[s]@);
                    }
                }
                assert forall|s: int, rid: int|
                    #![trigger buckets@[s], self.spec_rules()[rid]]
                    0 <= s < total && 0 <= rid < id && rid < self.spec_rules().len()
                    && rule_mentions(self.spec_rules()[rid], s) implies buckets@[s]@.contains(
                    rid as u16,
                ) by {
                    lemma_mip_full(self.spec_rules()[id as int - 1], s);
                    if rid < id - 1 {
                        assert(base[s]@.contains(rid as u16));
                        let idx: int = choose|idx: int|
                            0 <= idx < base[s]@.len() && base[s]@[idx] == rid as u16;
                        if mentions_in_prefix(
                            self.spec_rules()[id as int - 1],
                            s,
                            repl_len as int,
                        ) {
                            assert(buckets@[s]@[idx] == rid as u16);
                        } else {
                            assert(buckets@[s]@[idx] == rid as u16);
                        }
                    } else {
                        assert(buckets@[s]@ == base[s]@.push((id - 1) as u16));
                        assert(buckets@[s]@[buckets@[s]@.len() - 1] == rid as u16);
                    }
                }
            }
        }
        let ghost bks = buckets@;
        proof {
            assert(sum_lens(bks, bks.len() as int) <= u16::MAX);
        }
        let rev: FlatTable<u16> = FlatTable::from_vec_vec(buckets);
        proof {
            assert forall|s: int, j: int|
                0 <= s < total && 0 <= j < rev.spec_row(s).len() implies (
            #[trigger] rev.spec_row(s)[j]) < self.spec_rules().len() && rule_mentions(
                self.spec_rules()[rev.spec_row(s)[j] as int],
                s,
            ) by {
                assert(rev.spec_row(s) == bks[s]@);
                assert(bks[s]@[j] < nbr_rules && rule_mentions(
                    self.spec_rules()[bks[s]@[j] as int],
                    s,
                ));
            }
            assert forall|s: int, j1: int, j2: int|
                0 <= s < total && 0 <= j1 < j2 < rev.spec_row(s).len() implies (
            #[trigger] rev.spec_row(s)[j1]) < (#[trigger] rev.spec_row(s)[j2]) by {
                assert(rev.spec_row(s) == bks[s]@);
                assert(bks[s]@[j1] < bks[s]@[j2]);
            }
            assert forall|s: int, id: int|
                #![trigger rev.spec_row(s), self.spec_rules()[id]]
                0 <= s < total && 0 <= id < self.spec_rules().len() && rule_mentions(
                    self.spec_rules()[id],
                    s,
                ) implies rev.spec_row(s).contains(id as u16) by {
                assert(bks[s]@.contains(id as u16));
                assert(rev.spec_row(s) == bks[s]@);
            }
        }
        rev
    }

    /// The ids of the rules whose replacement can produce the given symbol,
    /// each exactly once, ascending.  The reverse production index behind
    /// this query is computed on first use and cached: the grammar itself is
    /// left unchanged.
    pub fn get_rules_producing(&mut self, produced_symbol: Symbol) -> (r: Vec<u16>)
        requires
            old(self).wf(),
            produced_symbol.id < old(self).spec_nbr_symbols(),
        ensures
            final(self).wf(),
            final(self).spec_rules() == old(self).spec_rules(),
            final(self).spec_symbol_set() == old(self).spec_symbol_set(),
            forall|j1: int, j2: int| 0 <= j1 < j2 < r@.len() ==> r@[j1] < r@[j2],
            forall|j: int|
                0 <= j < r@.len() ==> (#[trigger] r@[j]) < old(self).spec_rules().len()
                    && rule_mentions(
                    old(self).spec_rules()[r@[j] as int],
                    produced_symbol.id as int,
                ),
            forall|id: int|
                0 <= id < old(self).spec_rules().len() && rule_mentions(
                    #[trigger] old(self).spec_rules()[id],
                    produced_symbol.id as int,
                ) ==> r@.contains(id as u16),
    {
        if self.rules_producing_each_symbol.is_none() {
            let rev: FlatTable<u16> = self.compute_rules_producing_each_symbol();
            self.rules_producing_each_symbol = Some(rev);
        }
        let rev: &FlatTable<u16> = self.rules_producing_each_symbol.as_ref().unwrap();
        let s: usize = produced_symbol.id as usize;
        let start: u16 = rev.rows[s];
        let end: u16 = if s < rev.rows.len() - 1 {
            rev.rows[s + 1]
        } else {
            rev.table.len() as u16
        };
        let mut out: Vec<u16> = Vec::new();
        let mut k: u16 = start;
        while k < end
            invariant
                rev_index_wf(*rev, self.spec_rules(), self.spec_nbr_symbols()),
                s < self.spec_nbr_symbols(),
                start == rev.spec_row_start(s as int),
                end == rev.spec_row_end(s as int),
                start <= k <= end,
                out@.len() == k - start,
                forall|j: int| 0 <= j < out@.len() ==> (#[trigger] out@[j]) == rev.spec_row(
                    s as int,
                )[j],
            decreases end - k,
        {
            out.push(rev.table[k as usize]);
            k = k + 1;
        }
        proof {
            assert(out@ =~= rev.spec_row(s as int));
        }
        out
    }

    /// The worklist fixpoint: compute the bit-vector of nullable
    /// non-terminals.  Every rule with an empty replacement marks its origin
    /// immediately; each terminal-free rule counts its distinct not yet
    /// processed non-terminals, and a rule fires exactly when that counter
    /// drains to zero.  Rules containing a terminal are never tracked: they
    /// cannot become nullable.
    #[verifier::rlimit(100)]
    fn compute_are_symbols_nullable(&self) -> (bs: BitSet<Vec<u8>>)
        requires
            self.wf(),
            self.rules_producing_each_symbol is Some,
        ensures
            bs.wf(),
            bs.spec_size() == self.spec_nbr_non_terminals(),
            forall|s: int|
                0 <= s < self.spec_nbr_non_terminals() ==> bs@[s] == is_nullable(
                    self.spec_rules(),
                    s,
                ),
    {
        let ghost rules = self.spec_rules();
        let n16: u16 = self.nbr_non_terminals();
        let n: usize = n16 as usize;
        let total: u16 = self.nbr_symbols();
        let nbr_rules: u16 = self.nbr_rules();
        let rev: &FlatTable<u16> = self.rules_producing_each_symbol.as_ref().unwrap();

        // Initially, no symbol is considered nullable.
        let mut are_nullable: BitSet<Vec<u8>> = BitSet::new_filled(false, n);
        // Per rule: the number of distinct non-terminals in its replacement
        // not yet proven nullable; untracked for rules holding a terminal.
        let mut nbr_nullable: Vec<Option<u16>> = Vec::new();
        // Non-terminals marked nullable but not yet propagated.
        let mut unprocessed_nullable_symbols: Vec<u16> = Vec::new();

        let mut id: u16 = 0;
        while id < nbr_rules
            invariant
                self.wf(),
                rules == self.spec_rules(),
                n16 == n,
                n16 == self.spec_nbr_non_terminals(),
                total == self.spec_nbr_symbols(),
                nbr_rules == rules.len(),
                id <= nbr_rules,
                are_nullable.wf(),
                are_nullable.spec_size() == n,
                nbr_nullable@.len() == id,
                worklist_ok(are_nullable@, unprocessed_nullable_symbols@, rules, n as int),
                forall|s: int|
                    0 <= s < n && are_nullable@[s] ==> stack_ids(
                        unprocessed_nullable_symbols@,
                    ).contains(s),
                forall|rid: int|
                    0 <= rid < id ==> ((#[trigger] nbr_nullable@[rid]) is Some) == terminal_free(
                        rules[rid],
                        n as int,
                    ),
                forall|rid: int|
                    0 <= rid < id ==> ((#[trigger] nbr_nullable@[rid]) matches Some(c) ==> c
                        == distinct_non_terminals(rules[rid].replacement@, n as int).len()),
                forall|rid: int|
                    0 <= rid < id && (#[trigger] nbr_nullable@[rid]) == Some(0u16)
                        ==> rules[rid].replacement@.len() == 0 && are_nullable@[rules[rid].origin.id as int],
            decreases nbr_rules - id,
        {
            let rule: &CfgRule = self.get_rule_by_id(id);
            let counts: (usize, usize, u16) = self.count_symbols_in_rule(rule);
            let term: usize = counts.0;
            let dist: u16 = counts.2;
            proof {
                lemma_count_terminals_zero(rule.replacement@, n as int);
            }
            if rule.replacement.len() == 0 {
                let oid: u16 = rule.origin.id;
                proof {
                    assert(rule_valid(rules[id as int], n as int, total as int));
                    assert(forall|j: int|
                        0 <= j < rules[id as int].replacement@.len() ==> nullable_within(
                            rules,
                            (#[trigger] rules[id as int].replacement@[j]).id as int,
                            0nat,
                        ));
                    assert(nullable_within(rules, oid as int, 1nat));
                }
                if !are_nullable.contains(oid as usize) {
                    are_nullable.insert(oid as usize);
                    let ghost prev_stack = unprocessed_nullable_symbols@;
                    unprocessed_nullable_symbols.push(oid);
                    proof {
                        lemma_stack_ids_push(prev_stack, oid);
                        assert forall|s: int|
                            0 <= s < n && are_nullable@[s] implies stack_ids(
                            unprocessed_nullable_symbols@,
                        ).contains(s) by {
                            if s != oid {
                                assert(stack_ids(prev_stack).contains(s));
                            }
                        }
                    }
                }
            }
            if term == 0 {
                proof {
                    if dist == 0 && rule.replacement@.len() != 0 {
                        // A non-empty terminal-free replacement starts with a
                        // non-terminal, so its distinct count cannot be zero.
                        let x: int = rule.replacement@[0].id as int;
                        assert(distinct_non_terminals(rule.replacement@, n as int).contains(x));
                        lemma_distinct_nt_finite(rule.replacement@, n as int);
                        vstd::set::axiom_set_remove_len(
                            distinct_non_terminals(rule.replacement@, n as int),
                            x,
                        );
                        assert(false);
                    }
                }
                nbr_nullable.push(Some(dist));
            } else {
                nbr_nullable.push(None);
            }
            id = id + 1;
        }

        proof {
            assert(marked_ids(are_nullable@).difference(
                stack_ids(unprocessed_nullable_symbols@),
            ) =~= Set::<int>::empty());
            assert forall|rid: int|
                0 <= rid < rules.len() implies ((#[trigger] nbr_nullable@[rid]) matches Some(c)
                ==> c == distinct_non_terminals(rules[rid].replacement@, n as int).difference(
                marked_ids(are_nullable@).difference(stack_ids(unprocessed_nullable_symbols@)),
            ).len()) by {
                assert(distinct_non_terminals(rules[rid].replacement@, n as int).difference(
                    Set::<int>::empty(),
                ) =~= distinct_non_terminals(rules[rid].replacement@, n as int));
            }
            lemma_marked_ids_finite(are_nullable@);
        }

        while unprocessed_nullable_symbols.len() > 0
            invariant
                self.wf(),
                rules == self.spec_rules(),
                n16 == n,
                n16 == self.spec_nbr_non_terminals(),
                total == self.spec_nbr_symbols(),
                nbr_rules == rules.len(),
                rev_index_wf(*rev, rules, total as int),
                are_nullable.wf(),
                are_nullable.spec_size() == n,
                nbr_nullable@.len() == rules.len(),
                worklist_ok(are_nullable@, unprocessed_nullable_symbols@, rules, n as int),
                marked_ids(are_nullable@).len() <= n,
                forall|rid: int|
                    0 <= rid < rules.len() ==> ((#[trigger] nbr_nullable@[rid]) is Some)
                        == terminal_free(rules[rid], n as int),
                forall|rid: int|
                    0 <= rid < rules.len() ==> ((#[trigger] nbr_nullable@[rid]) matches Some(c)
                        ==> c == distinct_non_terminals(
                        rules[rid].replacement@,
                        n as int,
                    ).difference(
                        marked_ids(are_nullable@).difference(
                            stack_ids(unprocessed_nullable_symbols@),
                        ),
                    ).len()),
                forall|rid: int|
                    0 <= rid < rules.len() && (#[trigger] nbr_nullable@[rid]) == Some(0u16)
                        ==> 0 <= rules[rid].origin.id < n && are_nullable@[rules[rid].origin.id as int],
            decreases n - marked_ids(are_nullable@).len(), unprocessed_nullable_symbols@.len(),
        {
            let ghost stack_entry = unprocessed_nullable_symbols@;
            let ghost marked_entry = marked_ids(are_nullable@);
            let s: u16 = unprocessed_nullable_symbols.pop().unwrap();
            let ghost stack0 = unprocessed_nullable_symbols@;
            let ghost old_processed = marked_entry.difference(stack_ids(stack_entry));
            let ghost new_processed = marked_entry.difference(stack_ids(stack0));
            proof {
                assert(stack_entry =~= stack0.push(s));
                lemma_stack_ids_push(stack0, s);
                assert(!stack_ids(stack0).contains(s as int));
                assert(new_processed =~= old_processed.insert(s as int));
                lemma_marked_ids_finite(are_nullable@);
            }
            let start: u16 = rev.rows[s as usize];
            let end: u16 = if (s as usize) < rev.rows.len() - 1 {
                rev.rows[s as usize + 1]
            } else {
                rev.table.len() as u16
            };
            let ghost row = rev.spec_row(s as int);
            let mut k: u16 = start;
            while k < end
                invariant
                    self.wf(),
                    rules == self.spec_rules(),
                    n16 == n,
                    n16 == self.spec_nbr_non_terminals(),
                    total == self.spec_nbr_symbols(),
                    nbr_rules == rules.len(),
                    rev_index_wf(*rev, rules, total as int),
                    s < n,
                    row == rev.spec_row(s as int),
                    start == rev.spec_row_start(s as int),
                    end == rev.spec_row_end(s as int),
                    start <= k <= end,
                    are_nullable.wf(),
                    are_nullable.spec_size() == n,
                    nbr_nullable@.len() == rules.len(),
                    worklist_ok(are_nullable@, unprocessed_nullable_symbols@, rules, n as int),
                    marked_ids(are_nullable@).finite(),
                    marked_ids(are_nullable@).len() <= n,
                    marked_entry.subset_of(marked_ids(are_nullable@)),
                    marked_entry.finite(),
                    unprocessed_nullable_symbols@.len() - stack0.len() <= marked_ids(
                        are_nullable@,
                    ).len() - marked_entry.len(),
                    old_processed == marked_entry.difference(stack_ids(stack_entry)),
                    new_processed == marked_entry.difference(stack_ids(stack0)),
                    new_processed == old_processed.insert(s as int),
                    !old_processed.contains(s as int),
                    // Processing never unmarks and never re-processes: the
                    // pool of processed ids seen by the counters is stable
                    // but for `s` itself.
                    marked_ids(are_nullable@).difference(stack_ids(unprocessed_nullable_symbols@))
                        == new_processed,
                    forall|rid: int|
                        0 <= rid < rules.len() ==> ((#[trigger] nbr_nullable@[rid]) is Some)
                            == terminal_free(rules[rid], n as int),
                    forall|rid: int|
                        0 <= rid < rules.len() ==> ((#[trigger] nbr_nullable@[rid]) matches Some(
                            c,
                        ) ==> c == distinct_non_terminals(
                            rules[rid].replacement@,
                            n as int,
                        ).difference(
                            if row.take(k - start).contains(rid as u16) {
                                new_processed
                            } else {
                                old_processed
                            },
                        ).len()),
                    forall|rid: int|
                        0 <= rid < rules.len() && (#[trigger] nbr_nullable@[rid]) == Some(0u16)
                            ==> 0 <= rules[rid].origin.id < n && are_nullable@[rules[rid].origin.id as int],
                decreases end - k,
            {
                let rid: u16 = rev.table[k as usize];
                proof {
                    assert(rev.spec_row(s as int)[k - start] == rid);
                    assert(rid < rules.len() && rule_mentions(rules[rid as int], s as int));
                }
                let c_opt: Option<u16> = nbr_nullable[rid as usize];
                let ghost take_old = row.take(k - start);
                let ghost take_new = row.take(k + 1 - start);
                proof {
                    assert(take_new =~= take_old.push(rid));
                    lemma_seq_push_contains(take_old, rid, rid);
                    if take_old.contains(rid) {
                        let idx: int = choose|idx: int|
                            0 <= idx < take_old.len() && take_old[idx] == rid;
                        assert(row[idx] == rid);
                        assert(row[idx] < row[k - start]);
                        assert(false);
                    }
                }
                if let Some(c) = c_opt {
                    let ghost dset = distinct_non_terminals(
                        rules[rid as int].replacement@,
                        n as int,
                    );
                    proof {
                        lemma_distinct_nt_finite(rules[rid as int].replacement@, n as int);
                        vstd::set_lib::lemma_set_subset_finite(dset, dset.difference(old_processed));
                        assert(dset.contains(s as int));
                        assert(!old_processed.contains(s as int));
                        assert(dset.difference(old_processed).contains(s as int));
                        lemma_diff_insert_remove(dset, old_processed, s as int);
                        vstd::set::axiom_set_remove_len(dset.difference(old_processed), s as int);
                        assert(c >= 1);
                    }
                    let c2: u16 = c - 1;
                    nbr_nullable[rid as usize] = Some(c2);
                    if c2 == 0 {
                        let orig: Symbol = self.get_rule_by_id(rid).origin;
                        proof {
                            assert(rule_valid(rules[rid as int], n as int, total as int));
                        }
                        if !are_nullable.contains(orig.id as usize) {
                            proof {
                                // Every distinct non-terminal of the rule is
                                // processed, hence marked, hence nullable: the
                                // rule fires and its origin is nullable.
                                lemma_empty_diff(dset, new_processed);
                                assert forall|j: int|
                                    0 <= j < rules[rid as int].replacement@.len() implies is_nullable(
                                    rules,
                                    (#[trigger] rules[rid as int].replacement@[j]).id as int,
                                ) by {
                                    let x: int = rules[rid as int].replacement@[j].id as int;
                                    assert(0 <= x < n);
                                    assert(dset.contains(x));
                                    assert(new_processed.contains(x));
                                    assert(marked_ids(are_nullable@).contains(x));
                                }
                                let kk: nat = lemma_common_rank(
                                    rules,
                                    rules[rid as int].replacement@,
                                    rules[rid as int].replacement@.len() as int,
                                );
                                assert(nullable_within(rules, orig.id as int, kk + 1));
                            }
                            let ghost prev_marked = marked_ids(are_nullable@);
                            are_nullable.insert(orig.id as usize);
                            let ghost prev_stack = unprocessed_nullable_symbols@;
                            unprocessed_nullable_symbols.push(orig.id);
                            proof {
                                lemma_stack_ids_push(prev_stack, orig.id);
                                assert(marked_ids(are_nullable@) =~= prev_marked.insert(
                                    orig.id as int,
                                ));
                                vstd::set::axiom_set_insert_len(prev_marked, orig.id as int);
                                lemma_marked_ids_finite(are_nullable@);
                            }
                        }
                    }
                }
                k = k + 1;
            }
            proof {
                // After draining the row, every tracked counter reads the new
                // processed pool: rules in the row were updated, rules
                // outside it do not mention `s` and read both pools alike.
                assert(row.take(end - start) =~= row);
                assert forall|rid: int|
                    0 <= rid < rules.len() implies ((#[trigger] nbr_nullable@[rid]) matches Some(
                    c,
                ) ==> c == distinct_non_terminals(rules[rid].replacement@, n as int).difference(
                    new_processed,
                ).len()) by {
                    if nbr_nullable@[rid] is Some {
                        if !row.contains(rid as u16) {
                            assert(!rule_mentions(rules[rid], s as int));
                            let dset = distinct_non_terminals(rules[rid].replacement@, n as int);
                            assert(!dset.contains(s as int));
                            assert(dset.difference(old_processed) =~= dset.difference(
                                new_processed,
                            ));
                        }
                    }
                }
                lemma_marked_ids_finite(are_nullable@);
                vstd::set_lib::lemma_len_subset(marked_entry, marked_ids(are_nullable@));
            }
        }

        proof {
            let m = marked_ids(are_nullable@);
            assert(stack_ids(unprocessed_nullable_symbols@) =~= Set::<int>::empty());
            assert(m.difference(stack_ids(unprocessed_nullable_symbols@)) =~= m);
            assert(closed_under_rules(rules, m)) by {
                assert forall|rid: int|
                    0 <= rid < rules.len() && (forall|j: int|
                        0 <= j < (#[trigger] rules[rid]).replacement@.len() ==> m.contains(
                            (#[trigger] rules[rid].replacement@[j]).id as int,
                        )) implies m.contains(rules[rid].origin.id as int) by {
                    if terminal_free(rules[rid], n as int) {
                        let dset = distinct_non_terminals(rules[rid].replacement@, n as int);
                        assert forall|x: int| dset.contains(x) implies m.contains(x) by {
                            let j: int = choose|j: int|
                                0 <= j < rules[rid].replacement@.len() && (
                                #[trigger] rules[rid].replacement@[j]).id == x;
                            assert(m.contains(rules[rid].replacement@[j].id as int));
                        }
                        assert(dset.difference(m) =~= Set::<int>::empty());
                        assert(nbr_nullable@[rid] matches Some(c) ==> c == dset.difference(
                            m.difference(stack_ids(unprocessed_nullable_symbols@)),
                        ).len());
                        assert(dset.difference(m.difference(stack_ids(unprocessed_nullable_symbols@)))
                            =~= Set::<int>::empty());
                        assert(nbr_nullable@[rid] == Some(0u16));
                        assert(are_nullable@[rules[rid].origin.id as int]);
                    } else {
                        let j: int = choose|j: int|
                            0 <= j < rules[rid].replacement@.len() && !((
                            #[trigger] rules[rid].replacement@[j]).id < n);
                        assert(m.contains(rules[rid].replacement@[j].id as int));
                        assert(false);
                    }
                }
            }
            assert forall|s: int| 0 <= s < n implies are_nullable@[s] == is_nullable(
                rules,
                s,
            ) by {
                if are_nullable@[s] {
                    assert(is_nullable(rules, s));
                } else {
                    if is_nullable(rules, s) {
                        let k: nat = choose|k: nat| nullable_within(rules, s, k);
                        lemma_nullable_in_closed(rules, m, s, k);
                        assert(m.contains(s));
                        assert(false);
                    }
                }
            }
        }
        are_nullable
    }

    /// Whether the symbol can derive the empty word.  Terminals are never
    /// nullable; non-terminals consult the nullable bit-vector, which is
    /// computed by the worklist fixpoint on first use and cached: the
    /// grammar itself is left unchanged, and repeated queries read the same
    /// cached value.
    pub fn is_symbol_nullable(&mut self, symbol: Symbol) -> (r: bool)
        requires
            old(self).wf(),
        ensures
            final(self).wf(),
            final(self).spec_rules() == old(self).spec_rules(),
            final(self).spec_symbol_set() == old(self).spec_symbol_set(),
            r == is_nullable(old(self).spec_rules(), symbol.id as int),
    {
        let n16: u16 = self.nbr_non_terminals();
        if symbol.id >= n16 {
            proof {
                lemma_terminal_not_nullable(
                    self.spec_rules(),
                    n16 as int,
                    self.spec_nbr_symbols(),
                    symbol.id as int,
                );
            }
            return false;
        }
        if self.are_symbols_nullable.is_none() {
            // The fixpoint propagates along the reverse production index,
            // so that index is computed (or fetched) first.
            if self.rules_producing_each_symbol.is_none() {
                let rev: FlatTable<u16> = self.compute_rules_producing_each_symbol();
                self.rules_producing_each_symbol = Some(rev);
            }
            let bs: BitSet<Vec<u8>> = self.compute_are_symbols_nullable();
            self.are_symbols_nullable = Some(bs);
        }
        let bs: &BitSet<Vec<u8>> = self.are_symbols_nullable.as_ref().unwrap();
        bs.contains(symbol.id as usize)
    }

    /// Whether every symbol of the word is nullable; vacuously true of the
    /// empty word.
    pub fn is_word_nullable(&mut self, word: &[Symbol]) -> (r: bool)
        requires
            old(self).wf(),
        ensures
            final(self).wf(),
            final(self).spec_rules() == old(self).spec_rules(),
            final(self).spec_symbol_set() == old(self).spec_symbol_set(),
            r == (forall|j: int|
                0 <= j < word@.len() ==> is_nullable(
                    old(self).spec_rules(),
                    (#[trigger] word@[j]).id as int,
                )),
    {
        let len: usize = word.len();
        let mut j: usize = 0;
        while j < len
            invariant
                self.wf(),
                self.spec_rules() == old(self).spec_rules(),
                self.spec_symbol_set() == old(self).spec_symbol_set(),
                len == word@.len(),
                j <= len,
                forall|i: int|
                    0 <= i < j ==> is_nullable(
                        old(self).spec_rules(),
                        (#[trigger] word@[i]).id as int,
                    ),
            decreases len - j,
        {
            let sym: Symbol = *vstd::slice::slice_index_get(word, j);
            if !self.is_symbol_nullable(sym) {
                return false;
            }
            j = j + 1;
        }
        true
    }

    /// Whether the rule with the given id can derive the empty word: every
    /// symbol of its replacement is nullable.
    pub fn is_rule_nullable(&mut self, rule_id: u16) -> (r: bool)
        requires
            old(self).wf(),
            rule_id < old(self).spec_rules().len(),
        ensures
            final(self).wf(),
            final(self).spec_rules() == old(self).spec_rules(),
            final(self).spec_symbol_set() == old(self).spec_symbol_set(),
            r == (forall|j: int|
                0 <= j < old(self).spec_rules()[rule_id as int].replacement@.len()
                    ==> is_nullable(
                    old(self).spec_rules(),
                    (#[trigger] old(self).spec_rules()[rule_id as int].replacement@[j]).id as int,
                )),
    {
        let len: usize = self.get_rule_by_id(rule_id).replacement.len();
        let mut j: usize = 0;
        while j < len
            invariant
                self.wf(),
                self.spec_rules() == old(self).spec_rules(),
                self.spec_symbol_set() == old(self).spec_symbol_set(),
                rule_id < old(self).spec_rules().len(),
                len == old(self).spec_rules()[rule_id as int].replacement@.len(),
                j <= len,
                forall|i: int|
                    0 <= i < j ==> is_nullable(
                        old(self).spec_rules(),
                        (#[trigger] old(self).spec_rules()[rule_id as int].replacement@[i]).id as int,
                    ),
            decreases len - j,
        {
            let sym: Symbol = self.get_rule_by_id(rule_id).replacement[j];
            if !self.is_symbol_nullable(sym) {
                return false;
            }
            j = j + 1;
        }
        true
    }

    /// The ids of the rules whose origin is the given non-terminal: one
    /// contiguous, ascending span of rule ids, holding every such rule.
    pub fn get_rules_by_origin(&self, origin: Symbol) -> (r: Vec<u16>)
        requires
            self.wf(),
            origin.id < self.spec_nbr_non_terminals(),
        ensures
            forall|j: int| 0 < j < r@.len() ==> (#[trigger] r@[j]) == r@[j - 1] + 1,
            forall|j: int|
                0 <= j < r@.len() ==> (#[trigger] r@[j]) < self.spec_rules().len()
                    && self.spec_rules()[r@[j] as int].origin == origin,
            forall|id: int|
                0 <= id < self.spec_rules().len() && (#[trigger] self.spec_rules()[id]).origin.id
                    == origin.id ==> r@.contains(id as u16),
    {
        let o: usize = origin.id as usize;
        let start: u16 = self.rules.rows[o];
        let end: u16 = if o < self.rules.rows.len() - 1 {
            self.rules.rows[o + 1]
        } else {
            self.rules.table.len() as u16
        };
        let mut out: Vec<u16> = Vec::new();
        let mut id: u16 = start;
        proof {
            assert(end == self.rules.spec_row_end(o as int));
        }
        while id < end
            invariant
                self.wf(),
                o == origin.id,
                o < self.spec_nbr_non_terminals(),
                start == self.rules.spec_row_start(o as int),
                end == self.rules.spec_row_end(o as int),
                start <= id <= end,
                out@.len() == id - start,
                forall|j: int| 0 <= j < out@.len() ==> (#[trigger] out@[j]) == start + j,
            decreases end - id,
        {
            out.push(id);
            id = id + 1;
        }
        proof {
            assert forall|j: int| 0 <= j < out@.len() implies (#[trigger] out@[j])
                < self.spec_rules().len() && self.spec_rules()[out@[j] as int].origin
                == origin by {
                assert(self.rules.spec_row(o as int)[j] == self.spec_rules()[out@[j] as int]);
            }
            assert forall|rid: int|
                0 <= rid < self.spec_rules().len() && (#[trigger] self.spec_rules()[rid]).origin.id
                    == origin.id implies out@.contains(rid as u16) by {
                self.lemma_id_in_own_span(rid);
                assert(out@[rid - start] == rid as u16);
            }
        }
        out
    }
}

/// A freshly built row of empty buckets has total length zero.
proof fn lemma_sum_lens_all_empty<T>(s: Seq<Vec<T>>, k: int)
    requires
        forall|b: int| 0 <= b < s.len() ==> (#[trigger] s[b])@.len() == 0,
        k <= s.len(),
    ensures
        sum_lens(s, k) == 0,
    decreases k,
{
    if k > 0 {
        lemma_sum_lens_all_empty(s, k - 1);
    }
}

/// Changing one bucket changes the total length by that bucket's change.
proof fn lemma_sum_lens_update<T>(a: Seq<Vec<T>>, b: Seq<Vec<T>>, o: int, k: int)
    requires
        0 <= o < a.len(),
        k <= a.len(),
        b.len() == a.len(),
        forall|i: int| 0 <= i < a.len() && i != o ==> a[i] == b[i],
    ensures
        sum_lens(b, k) == sum_lens(a, k) + if 0 <= o < k {
            b[o]@.len() - a[o]@.len()
        } else {
            0
        },
    decreases k,
{
    if k > 0 {
        lemma_sum_lens_update(a, b, o, k - 1);
        if o != k - 1 {
            assert(a[k - 1] == b[k - 1]);
        }
    }
}

/// The value table of a grammar built from origin buckets is, prefix by
/// prefix, the stable sort of the given rules.
#[verifier::rlimit(50)]
proof fn lemma_sorted_prefix(ft: FlatTable<CfgRule>, orig: Seq<CfgRule>, n: int, o: int)
    requires
        0 <= o <= n,
        ft.wf(),
        ft.rows@.len() == n,
        forall|i: int| 0 <= i < n ==> ft.spec_row(i) == rules_with_origin(orig, i),
        forall|i: int| 0 <= i < n ==> ft.spec_row_start(i) == prefix_len(orig, i),
        ft.table@.len() == prefix_len(orig, n),
    ensures
        ft.table@.subrange(0, prefix_len(orig, o)) == sort_by_origin(orig, o),
    decreases o,
{
    if o > 0 {
        lemma_sorted_prefix(ft, orig, n, o - 1);
        lemma_prefix_len_monotone(orig, o - 1, o);
        lemma_prefix_len_monotone(orig, o, n);
        assert(ft.spec_row(o - 1) == rules_with_origin(orig, o - 1));
        assert(ft.spec_row_start(o - 1) == prefix_len(orig, o - 1));
        assert(ft.spec_row_end(o - 1) == prefix_len(orig, o));
        assert(ft.table@.subrange(0, prefix_len(orig, o)) =~= ft.table@.subrange(
            0,
            prefix_len(orig, o - 1),
        ) + ft.spec_row(o - 1));
    } else {
        assert(ft.table@.subrange(0, 0) =~= Seq::<CfgRule>::empty());
    }
}

/// The length of the stable sort up to origin `o`.
pub open spec fn prefix_len(orig: Seq<CfgRule>, o: int) -> int
    decreases o,
{
    if o <= 0 {
        0
    } else {
        prefix_len(orig, o - 1) + rules_with_origin(orig, o - 1).len()
    }
}

/// In a bucket row holding, for each origin, exactly that origin's rules,
/// the total length of the first `k` buckets is the sort-prefix length.
proof fn lemma_sum_lens_is_prefix_len(bks: Seq<Vec<CfgRule>>, orig: Seq<CfgRule>, k: int)
    requires
        0 <= k <= bks.len(),
        forall|b: int| 0 <= b < bks.len() ==> (#[trigger] bks[b])@ == rules_with_origin(orig, b),
    ensures
        sum_lens(bks, k) == prefix_len(orig, k),
    decreases k,
{
    if k > 0 {
        lemma_sum_lens_is_prefix_len(bks, orig, k - 1);
    }
}

/// Sort prefixes only grow.
proof fn lemma_prefix_len_monotone(orig: Seq<CfgRule>, o1: int, o2: int)
    requires
        0 <= o1 <= o2,
    ensures
        prefix_len(orig, o1) <= prefix_len(orig, o2),
    decreases o2 - o1,
{
    if o1 < o2 {
        lemma_prefix_len_monotone(orig, o1, o2 - 1);
    }
}

/// Every element of the stable sort is an element of the given rule
/// collection.
proof fn lemma_sort_by_origin_element(orig: Seq<CfgRule>, n: int, o: int, id: int)
    requires
        0 <= o <= n,
        0 <= id < sort_by_origin(orig, o).len(),
    ensures
        orig.contains(sort_by_origin(orig, o)[id]),
    decreases o,
{
    if o > 0 {
        let prefix = sort_by_origin(orig, o - 1);
        if id < prefix.len() {
            lemma_sort_by_origin_element(orig, n, o - 1, id);
        } else {
            let row = rules_with_origin(orig, o - 1);
            lemma_filter_element(orig, is_origin(o - 1), id - prefix.len());
        }
    }
}

/// The total replacement length of those of the first `k` rules whose
/// origin id is below `n`.
spec fn trl_below(rules: Seq<CfgRule>, n: int, k: int) -> int
    decreases k,
{
    if k <= 0 {
        0
    } else {
        trl_below(rules, n, k - 1) + if rules[k - 1].origin.id < n {
            rules[k - 1].replacement@.len() as int
        } else {
            0
        }
    }
}

/// Replacement-length totals only read the first `k` elements.
proof fn lemma_trl_prefix_eq(a: Seq<CfgRule>, b: Seq<CfgRule>, k: int)
    requires
        forall|i: int| 0 <= i < k ==> a[i] == b[i],
    ensures
        total_replacement_len(a, k) == total_replacement_len(b, k),
    decreases k,
{
    if k > 0 {
        lemma_trl_prefix_eq(a, b, k - 1);
    }
}

/// Replacement-length totals add up over concatenation.
proof fn lemma_trl_concat(a: Seq<CfgRule>, b: Seq<CfgRule>)
    ensures
        total_replacement_len(a + b, (a.len() + b.len()) as int) == total_replacement_len(
            a,
            a.len() as int,
        ) + total_replacement_len(b, b.len() as int),
    decreases b.len(),
{
    if b.len() == 0 {
        lemma_trl_prefix_eq(a + b, a, a.len() as int);
    } else {
        let b0 = b.drop_last();
        lemma_trl_concat(a, b0);
        lemma_trl_prefix_eq(a + b, a + b0, (a.len() + b.len()) as int - 1);
        lemma_trl_prefix_eq(b, b0, b.len() as int - 1);
        assert((a + b)[a.len() + b.len() - 1] == b[b.len() - 1]);
    }
}

/// The stable sort of no rules is empty.
proof fn lemma_sort_empty(n: int)
    ensures
        sort_by_origin(Seq::<CfgRule>::empty(), n).len() == 0,
    decreases n,
{
    reveal(Seq::filter);
    if n > 0 {
        lemma_sort_empty(n - 1);
    }
}

/// Appending one rule adds its replacement length to the sort total exactly
/// when its origin is among the sorted origins.
proof fn lemma_sort_push_trl(rules: Seq<CfgRule>, x: CfgRule, m: int)
    ensures
        total_replacement_len(
            sort_by_origin(rules.push(x), m),
            sort_by_origin(rules.push(x), m).len() as int,
        ) == total_replacement_len(sort_by_origin(rules, m), sort_by_origin(rules, m).len() as int)
            + if x.origin.id < m {
            x.replacement@.len() as int
        } else {
            0
        },
    decreases m,
{
    if m > 0 {
        lemma_sort_push_trl(rules, x, m - 1);
        rules.lemma_filter_push(x, is_origin(m - 1));
        let sp = sort_by_origin(rules.push(x), m - 1);
        let s0 = sort_by_origin(rules, m - 1);
        let fp = rules.push(x).filter(is_origin(m - 1));
        let f0 = rules.filter(is_origin(m - 1));
        lemma_trl_concat(sp, fp);
        lemma_trl_concat(s0, f0);
        if x.origin.id == m - 1 {
            lemma_trl_prefix_eq(f0.push(x), f0, f0.len() as int);
        }
    }
}

/// The stable sort keeps exactly the replacement lengths of the rules whose
/// origin is among the sorted origins.
proof fn lemma_sort_trl(rules: Seq<CfgRule>, n: int)
    ensures
        total_replacement_len(sort_by_origin(rules, n), sort_by_origin(rules, n).len() as int)
            == trl_below(rules, n, rules.len() as int),
    decreases rules.len(),
{
    if rules.len() == 0 {
        assert(rules =~= Seq::<CfgRule>::empty());
        lemma_sort_empty(n);
    } else {
        let s0 = rules.drop_last();
        let x = rules.last();
        assert(rules =~= s0.push(x));
        lemma_sort_trl(s0, n);
        lemma_sort_push_trl(s0, x, n);
        lemma_trl_below_prefix(rules, s0, n, rules.len() as int - 1);
        assert(sort_by_origin(rules, n) == sort_by_origin(s0.push(x), n));
        assert(rules[rules.len() as int - 1] == x);
        assert(trl_below(rules, n, rules.len() as int) == trl_below(rules, n, rules.len() as int - 1)
            + if x.origin.id < n {
                x.replacement@.len() as int
            } else {
                0
            });
    }
}

/// Restricted totals only read the first `k` elements.
proof fn lemma_trl_below_prefix(a: Seq<CfgRule>, b: Seq<CfgRule>, n: int, k: int)
    requires
        forall|i: int| 0 <= i < k ==> a[i] == b[i],
    ensures
        trl_below(a, n, k) == trl_below(b, n, k),
    decreases k,
{
    if k > 0 {
        lemma_trl_below_prefix(a, b, n, k - 1);
    }
}

/// Over rules that all fit the grammar, the restricted total is the whole
/// total.
proof fn lemma_trl_below_all_valid(rules: Seq<CfgRule>, n: int, total: int, k: int)
    requires
        all_rules_valid(rules, n, total),
        k <= rules.len(),
    ensures
        trl_below(rules, n, k) == total_replacement_len(rules, k),
    decreases k,
{
    if k > 0 {
        lemma_trl_below_all_valid(rules, n, total, k - 1);
        assert(rule_valid(rules[k - 1], n, total));
    }
}

/// Every element of a filtered sequence is an element of the sequence.
proof fn lemma_filter_element<A>(s: Seq<A>, pred: spec_fn(A) -> bool, i: int)
    requires
        0 <= i < s.filter(pred).len(),
    ensures
        s.contains(s.filter(pred)[i]),
    decreases s.len(),
{
    reveal(Seq::filter);
    if s.len() > 0 {
        let sub = s.drop_last().filter(pred);
        if i < sub.len() {
            lemma_filter_element(s.drop_last(), pred, i);
            let k: int = choose|k: int|
                0 <= k < s.drop_last().len() && s.drop_last()[k] == s.filter(pred)[i];
            assert(s[k] == s.filter(pred)[i]);
        } else {
            assert(s[s.len() - 1] == s.filter(pred)[i]);
        }
    }
}

} // verus!
