//! Interception: rule resolution and cell rewriting.
//!
//! On each RowDescription the resolver walks the fields in order and, for
//! each, the configured rules in order; the first rule whose column name
//! equals the field's name binds that column index to the rule's strategy.
//! Table-scoped rules match unconditionally, since the wire carries only a
//! table identifier, not its name. On each DataRow every non-NULL cell is
//! rewritten when a bound rule or, failing that, the content heuristic
//! names a strategy; NULL cells and unmatched cells pass through untouched.

use vstd::prelude::*;

verus! {

use crate::codec::ProxyError;
use crate::config::{AppConfig, MaskingRule, RuleModel};
use crate::faker::{mask, mask_spec, spec_strategy_of, strategy_of, Strategy};
use crate::msg::{DataRow, FieldDescription, FieldModel, RowDescription};
use crate::scanner::{spec_scan, PiiScanner, PiiType};
use vstd::slice::slice_to_vec;
use vstd::utf8::encode_utf8;

/// The capability set an interceptor implements: observe each
/// RowDescription, rewrite each DataRow. The anonymizer is one
/// implementation; a pass-through or a logger are others.
pub trait PacketInterceptor {
    fn on_row_description(&mut self, msg: &RowDescription);

    fn on_data_row(&mut self, msg: DataRow) -> Result<DataRow, ProxyError>;
}

/// A rule binds a field when the UTF-8 bytes of its column name equal the
/// field's name bytes.
pub open spec fn rule_matches(rule: RuleModel, field: FieldModel) -> bool {
    encode_utf8(rule.column) == field.name
}

/// The strategy of the first rule binding `field`, if any.
pub open spec fn first_rule_strategy(rules: Seq<RuleModel>, field: FieldModel) -> Option<Strategy>
    decreases rules.len(),
{
    if rules.len() == 0 {
        None
    } else if rule_matches(rules[0], field) {
        Some(spec_strategy_of(rules[0].strategy))
    } else {
        first_rule_strategy(rules.drop_first(), field)
    }
}

/// The strategy bound to column `i` of a described row, if any.
pub open spec fn spec_column_strategy(
    fields: Seq<FieldModel>,
    rules: Seq<RuleModel>,
    i: int,
) -> Option<Strategy> {
    if 0 <= i < fields.len() {
        first_rule_strategy(rules, fields[i])
    } else {
        None
    }
}

/// The first entry of the strategy table for column `i`, if any.
pub open spec fn table_lookup(t: Seq<(usize, Strategy)>, i: int) -> Option<Strategy>
    decreases t.len(),
{
    if t.len() == 0 {
        None
    } else if t[0].0 == i {
        Some(t[0].1)
    } else {
        table_lookup(t.drop_first(), i)
    }
}

/// Appending an entry leaves earlier lookups alone and answers for its own
/// index only where nothing answered before.
proof fn lemma_table_lookup_push(t: Seq<(usize, Strategy)>, e: (usize, Strategy), i: int)
    ensures
        table_lookup(t.push(e), i) == (match table_lookup(t, i) {
            Some(s) => Some(s),
            None => if e.0 == i {
                Some(e.1)
            } else {
                None
            },
        }),
    decreases t.len(),
{
    let tp = t.push(e);
    if t.len() == 0 {
        assert(tp.drop_first() =~= Seq::<(usize, Strategy)>::empty());
        assert(tp[0] == e);
        assert(table_lookup(t, i) is None);
        if e.0 == i {
            assert(table_lookup(tp, i) == Some(e.1));
        } else {
            assert(table_lookup(tp, i) == table_lookup(tp.drop_first(), i));
            assert(table_lookup(tp, i) is None);
        }
    } else {
        assert(tp[0] == t[0]);
        assert(tp.drop_first() =~= t.drop_first().push(e));
        lemma_table_lookup_push(t.drop_first(), e, i);
        if t[0].0 == i {
            assert(table_lookup(tp, i) == Some(t[0].1));
            assert(table_lookup(t, i) == Some(t[0].1));
        } else {
            assert(table_lookup(tp, i) == table_lookup(t.drop_first().push(e), i));
            assert(table_lookup(t, i) == table_lookup(t.drop_first(), i));
        }
    }
}

/// A table none of whose entries name `i` answers nothing for `i`.
proof fn lemma_table_lookup_absent(t: Seq<(usize, Strategy)>, i: int)
    requires
        forall|j: int| 0 <= j < t.len() ==> (#[trigger] t[j]).0 != i,
    ensures
        table_lookup(t, i) is None,
    decreases t.len(),
{
    if t.len() > 0 {
        assert(t.drop_first() =~= t.skip(1));
        assert(forall|j: int|
            0 <= j < t.drop_first().len() ==> (#[trigger] t.drop_first()[j]) == t[j + 1]);
        lemma_table_lookup_absent(t.drop_first(), i);
    }
}

/// The strategy the content heuristic assigns to cell bytes, if any.
pub open spec fn heuristic_strategy(v: Seq<u8>) -> Option<Strategy> {
    match spec_scan(v) {
        Some(PiiType::Email) => Some(Strategy::Email),
        Some(PiiType::CreditCard) => Some(Strategy::CreditCard),
        None => None,
    }
}

/// How a cell's strategy is chosen: a bound rule wins over the heuristic,
/// and the heuristic runs only when enabled.
pub open spec fn cell_strategy(
    targets: Seq<(usize, Strategy)>,
    heur: bool,
    i: int,
    v: Seq<u8>,
) -> Option<Strategy> {
    match table_lookup(targets, i) {
        Some(s) => Some(s),
        None => if heur {
            heuristic_strategy(v)
        } else {
            None
        },
    }
}

/// What cell `i` becomes: NULL stays NULL, an unmatched cell keeps its
/// bytes, a matched cell becomes the deterministic replacement.
pub open spec fn masked_cell(
    targets: Seq<(usize, Strategy)>,
    heur: bool,
    i: int,
    c: Option<Seq<u8>>,
) -> Option<Seq<u8>> {
    match c {
        None => None,
        Some(v) => match cell_strategy(targets, heur, i, v) {
            None => Some(v),
            Some(s) => Some(mask_spec(v, s)),
        },
    }
}

/// Whether cell `i` is rewritten.
pub open spec fn cell_is_masked(
    targets: Seq<(usize, Strategy)>,
    heur: bool,
    i: int,
    c: Option<Seq<u8>>,
) -> bool {
    c matches Some(v) && cell_strategy(targets, heur, i, v) is Some
}

/// How many of the first `k` cells are rewritten.
pub open spec fn count_masked_upto(
    targets: Seq<(usize, Strategy)>,
    heur: bool,
    cells: Seq<Option<Seq<u8>>>,
    k: int,
) -> nat
    decreases k,
{
    if k <= 0 {
        0
    } else {
        count_masked_upto(targets, heur, cells, k - 1) + (if cell_is_masked(
            targets,
            heur,
            k - 1,
            cells[k - 1],
        ) {
            1nat
        } else {
            0nat
        })
    }
}

/// Addition into a 64-bit counter that stops at the ceiling.
pub open spec fn u64_sat_add(a: u64, n: nat) -> u64 {
    if a + n > u64::MAX {
        u64::MAX
    } else {
        (a + n) as u64
    }
}

/// An empty strategy table answers nothing.
pub proof fn lemma_table_lookup_empty()
    ensures
        forall|i: int| table_lookup(Seq::<(usize, Strategy)>::empty(), i) is None,
{
}

/// NULL preservation: whatever the rules, the heuristic switch and the
/// column, a NULL cell is emitted as NULL.
pub proof fn lemma_null_preserved(targets: Seq<(usize, Strategy)>, heur: bool, i: int)
    ensures
        masked_cell(targets, heur, i, None) is None,
{
}

/// Rule precedence: a cell whose column is bound by the table is replaced
/// by the deterministic mask for the bound strategy, whatever its content
/// and whether or not the heuristic runs.
pub proof fn lemma_rule_precedence(
    targets: Seq<(usize, Strategy)>,
    heur: bool,
    i: int,
    s: Strategy,
    v: Seq<u8>,
)
    requires
        table_lookup(targets, i) == Some(s),
    ensures
        masked_cell(targets, heur, i, Some(v)) == Some(mask_spec(v, s)),
{
}

/// The anonymizing interceptor: the configuration snapshot, the scanner,
/// the strategy table rebuilt on each RowDescription, and a counter of
/// rewritten cells.
pub struct Anonymizer {
    config: AppConfig,
    scanner: PiiScanner,
    target_cols: Vec<(usize, Strategy)>,
    masked_cells: u64,
}

impl Anonymizer {
    /// The strategy table bound by the current RowDescription.
    pub closed spec fn targets(self) -> Seq<(usize, Strategy)> {
        self.target_cols@
    }

    /// Whether the content heuristic runs on unbound cells.
    pub closed spec fn heuristic_enabled(self) -> bool {
        self.config.masking_enabled
    }

    /// The configured rules, in order.
    pub closed spec fn rules(self) -> Seq<RuleModel> {
        self.config.rules_model()
    }

    /// How many cells this interceptor has rewritten, saturating at the
    /// counter's ceiling.
    pub closed spec fn masked_total(self) -> u64 {
        self.masked_cells
    }

    /// How many cells this interceptor has rewritten so far.
    pub fn masked_total_read(&self) -> (n: u64)
        ensures
            n == self.masked_total(),
    {
        self.masked_cells
    }

    /// An anonymizer over a configuration snapshot, with no columns bound
    /// yet.
    pub fn new(config: AppConfig) -> (a: Anonymizer)
        ensures
            a.targets() == Seq::<(usize, Strategy)>::empty(),
            a.heuristic_enabled() == config.masking_enabled,
            a.rules() == config.rules_model(),
            a.masked_total() == 0,
    {
        Anonymizer {
            config,
            scanner: PiiScanner::new(),
            target_cols: Vec::new(),
            masked_cells: 0,
        }
    }

    /// Rebuilds the strategy table from a RowDescription: for every column,
    /// the first matching rule, and nothing else.
    pub fn apply_row_description(&mut self, msg: &RowDescription)
        ensures
            forall|i: int|
                table_lookup(final(self).targets(), i) == spec_column_strategy(
                    msg@,
                    old(self).rules(),
                    i,
                ),
            final(self).rules() == old(self).rules(),
            final(self).heuristic_enabled() == old(self).heuristic_enabled(),
            final(self).masked_total() == old(self).masked_total(),
    {
        let ghost rules_model = self.config.rules_model();
        let ghost fields_model = msg@;
        let mut new_targets: Vec<(usize, Strategy)> = Vec::new();
        let mut k: usize = 0;
        while k < msg.fields.len()
            invariant
                fields_model == msg@,
                rules_model == self.config.rules_model(),
                k <= fields_model.len(),
                fields_model.len() == msg.fields@.len(),
                forall|j: int|
                    0 <= j < new_targets@.len() ==> (#[trigger] new_targets@[j]).0 < k,
                forall|i: int|
                    0 <= i < k ==> table_lookup(new_targets@, i) == spec_column_strategy(
                        fields_model,
                        rules_model,
                        i,
                    ),
            decreases fields_model.len() - k,
        {
            let ghost pre = new_targets@;
            match find_rule(&self.config.rules, &msg.fields[k]) {
                Some(s) => {
                    new_targets.push((k, s));
                },
                None => {},
            }
            proof {
                assert forall|i: int| 0 <= i < k + 1 implies table_lookup(new_targets@, i)
                    == spec_column_strategy(fields_model, rules_model, i) by {
                    match first_rule_strategy(rules_model, fields_model[k as int]) {
                        Some(s) => {
                            assert(new_targets@ =~= pre.push((k, s)));
                            lemma_table_lookup_push(pre, (k, s), i);
                            if i < k {
                            } else {
                                lemma_table_lookup_absent(pre, k as int);
                            }
                        },
                        None => {
                            if i == k {
                                lemma_table_lookup_absent(pre, k as int);
                            }
                        },
                    }
                }
            }
            k += 1;
        }
        self.target_cols = new_targets;
        proof {
            assert forall|i: int| table_lookup(self.target_cols@, i) == spec_column_strategy(
                fields_model,
                rules_model,
                i,
            ) by {
                if !(0 <= i < fields_model.len()) {
                    lemma_table_lookup_absent(self.target_cols@, i);
                }
            }
        }
    }

    /// Rewrites a row: the cell count is kept, NULL cells stay NULL, and
    /// every non-NULL cell becomes exactly what `masked_cell` names for its
    /// column and bytes. Always succeeds. The counter grows by the number
    /// of rewritten cells, saturating at its ceiling.
    pub fn mask_data_row(&mut self, msg: DataRow) -> (r: Result<DataRow, ProxyError>)
        ensures
            r matches Ok(out) && out@.len() == msg@.len() && (forall|i: int|
                0 <= i < msg@.len() ==> out@[i] == masked_cell(
                    old(self).targets(),
                    old(self).heuristic_enabled(),
                    i,
                    msg@[i],
                )) && (forall|i: int|
                0 <= i < msg@.len() ==> ((#[trigger] out@[i]) matches Some(w) ==> (w.len() <= 32
                    || msg@[i] == out@[i]))),
            final(self).targets() == old(self).targets(),
            final(self).rules() == old(self).rules(),
            final(self).heuristic_enabled() == old(self).heuristic_enabled(),
            final(self).masked_total() == u64_sat_add(
                old(self).masked_total(),
                count_masked_upto(
                    old(self).targets(),
                    old(self).heuristic_enabled(),
                    msg@,
                    msg@.len() as int,
                ),
            ),
    {
        let ghost targets = self.target_cols@;
        let ghost heur = self.config.masking_enabled;
        let ghost cells = msg@;
        let ghost start_count = self.masked_cells;
        let mut out_values: Vec<Option<Vec<u8>>> = Vec::new();
        let mut i: usize = 0;
        while i < msg.values.len()
            invariant
                targets == self.target_cols@,
                heur == self.config.masking_enabled,
                cells == msg@,
                self.config.rules_model() == old(self).rules(),
                cells.len() == msg.values@.len(),
                i <= cells.len(),
                out_values@.len() == i,
                forall|j: int|
                    0 <= j < i ==> #[trigger] view_cell(out_values@[j]) == masked_cell(
                        targets,
                        heur,
                        j,
                        cells[j],
                    ),
                forall|j: int|
                    0 <= j < i ==> (#[trigger] view_cell(out_values@[j]) matches Some(w) ==> (
                    w.len() <= 32 || cells[j] == view_cell(out_values@[j]))),
                self.masked_cells == u64_sat_add(
                    start_count,
                    count_masked_upto(targets, heur, cells, i as int),
                ),
            decreases cells.len() - i,
        {
            match &msg.values[i] {
                None => {
                    out_values.push(None);
                },
                Some(v) => {
                    let bound = lookup_strategy(&self.target_cols, i);
                    let strat: Option<Strategy> = match bound {
                        Some(s) => Some(s),
                        None => if self.config.masking_enabled {
                            match self.scanner.scan(v.as_slice()) {
                                Some(PiiType::Email) => Some(Strategy::Email),
                                Some(PiiType::CreditCard) => Some(Strategy::CreditCard),
                                None => None,
                            }
                        } else {
                            None
                        },
                    };
                    match strat {
                        Some(s) => {
                            out_values.push(Some(mask(v.as_slice(), s)));
                            self.masked_cells = self.masked_cells.saturating_add(1);
                        },
                        None => {
                            out_values.push(Some(slice_to_vec(v.as_slice())));
                        },
                    }
                },
            }
            i += 1;
        }
        let out = DataRow { values: out_values };
        proof {
            assert(forall|j: int| 0 <= j < cells.len() ==> out@[j] == view_cell(out.values@[j]));
        }
        Ok(out)
    }
}

/// The view of one stored cell.
pub open spec fn view_cell(c: Option<Vec<u8>>) -> Option<Seq<u8>> {
    match c {
        Some(v) => Some(v@),
        None => None,
    }
}

/// The strategy of the first configured rule whose column name matches the
/// field's name bytes.
fn find_rule(rules: &Vec<MaskingRule>, field: &FieldDescription) -> (r: Option<Strategy>)
    ensures
        r == first_rule_strategy(
            Seq::new(rules@.len(), |i: int| rules@[i]@),
            field@,
        ),
{
    let ghost model = Seq::new(rules@.len(), |i: int| rules@[i]@);
    let mut k: usize = 0;
    proof {
        assert(model.skip(0) =~= model);
    }
    while k < rules.len()
        invariant
            model == Seq::new(rules@.len(), |i: int| rules@[i]@),
            k <= rules@.len(),
            first_rule_strategy(model, field@) == first_rule_strategy(
                model.skip(k as int),
                field@,
            ),
        decreases rules@.len() - k,
    {
        let rule = &rules[k];
        if bytes_eq(field.name.as_slice(), rule.column.as_str().as_bytes()) {
            let s = strategy_of(&rule.strategy);
            proof {
                assert(model.skip(k as int)[0] == model[k as int]);
                assert(rule_matches(model[k as int], field@));
            }
            return Some(s);
        }
        k += 1;
        proof {
            assert(model.skip(k as int - 1)[0] == model[k as int - 1]);
            assert(!rule_matches(model[k as int - 1], field@));
            assert(model.skip(k as int - 1).drop_first() =~= model.skip(k as int));
        }
    }
    proof {
        assert(model.skip(k as int) =~= Seq::<RuleModel>::empty());
    }
    None
}

/// The table entry for column `i`, scanned from the front.
fn lookup_strategy(t: &Vec<(usize, Strategy)>, i: usize) -> (r: Option<Strategy>)
    ensures
        r == table_lookup(t@, i as int),
{
    let mut k: usize = 0;
    proof {
        assert(t@.skip(0) =~= t@);
    }
    while k < t.len()
        invariant
            k <= t@.len(),
            table_lookup(t@, i as int) == table_lookup(t@.skip(k as int), i as int),
        decreases t@.len() - k,
    {
        let e = t[k];
        proof {
            assert(t@.skip(k as int)[0] == t@[k as int]);
            assert(t@.skip(k as int).drop_first() =~= t@.skip(k as int + 1));
        }
        if e.0 == i {
            return Some(e.1);
        }
        k += 1;
    }
    proof {
        assert(t@.skip(k as int) =~= Seq::<(usize, Strategy)>::empty());
    }
    None
}

/// Two byte strings are equal.
fn bytes_eq(a: &[u8], b: &[u8]) -> (r: bool)
    ensures
        r == (a@ == b@),
{
    if a.len() != b.len() {
        proof {
            assert(a@.len() != b@.len());
        }
        return false;
    }
    let mut k: usize = 0;
    while k < a.len()
        invariant
            a@.len() == b@.len(),
            k <= a@.len(),
            forall|j: int| 0 <= j < k ==> a@[j] == b@[j],
        decreases a@.len() - k,
    {
        if a[k] != b[k] {
            return false;
        }
        k += 1;
    }
    proof {
        assert(a@ =~= b@);
    }
    true
}

impl PacketInterceptor for Anonymizer {
    fn on_row_description(&mut self, msg: &RowDescription) {
        self.apply_row_description(msg);
    }

    fn on_data_row(&mut self, msg: DataRow) -> Result<DataRow, ProxyError> {
        self.mask_data_row(msg)
    }
}

} // verus!
