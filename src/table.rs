use vstd::prelude::*;

use std::cmp::Ordering;
use std::path::PathBuf;
use uuid::Uuid;

use crate::currency::{currency_of, Currency, CurrencyError};
use crate::entropy::fresh_id;
use crate::text::{trim, trimmed};
use crate::order::{bytes_before, bytes_less, is_stable_order, lowercase, name_key, name_keys, stable_order};

verus! {

/// `uuid::Uuid`, carried through as an opaque identifier.
#[verifier::external_type_specification]
#[verifier::external_body]
pub struct ExUuid(Uuid);

/// `std::path::PathBuf`, carried through as an opaque file location.
#[verifier::external_type_specification]
#[verifier::external_body]
pub struct ExPathBuf(PathBuf);

/// Relies on `PathBuf::clone`: a path equal to the one cloned.
#[verifier::external_body]
fn copy_path(p: &PathBuf) -> (r: PathBuf)
    ensures
        r == *p,
{
    p.clone()
}

/// The two ways of limiting a roll.
#[derive(Debug, Clone, Copy, PartialEq, Eq, Structural)]
pub enum RollType {
    Cost,
    Count,
}

/// How many entries a roll may draw, or how much they may cost together.
#[derive(Debug, Clone, Copy, PartialEq, Eq, Structural)]
pub enum RollLimit {
    Count(usize),
    Cost(Currency),
}

impl RollType {
    /// Every roll type.
    pub fn get_values() -> (r: Vec<Self>)
        ensures
            r@ == seq![RollType::Cost, RollType::Count],
    {
        vec![RollType::Cost, RollType::Count]
    }

    /// The name shown for the roll type.
    pub fn label(&self) -> (r: &'static str)
        ensures
            *self == RollType::Cost ==> r@ == "Cost"@,
            *self == RollType::Count ==> r@ == "Count"@,
    {
        match self {
            RollType::Cost => "Cost",
            RollType::Count => "Count",
        }
    }
}

/// What a table entry holds: its weight, its name and its cost.
pub ghost struct EntryView {
    pub weight: nat,
    pub name: Seq<char>,
    pub cost: Currency,
}

/// One row of a table: a named item with a cost and a drawing weight.
#[derive(Debug)]
pub struct TableEntry {
    weight: usize,
    name: String,
    cost: Currency,
}

impl View for TableEntry {
    type V = EntryView;

    closed spec fn view(&self) -> EntryView {
        EntryView { weight: self.weight as nat, name: self.name@, cost: self.cost }
    }
}

impl Clone for TableEntry {
    fn clone(&self) -> (r: Self)
        ensures
            r@ == self@,
    {
        TableEntry { weight: self.weight, name: self.name.clone(), cost: self.cost }
    }
}

impl PartialEq for TableEntry {
    fn eq(&self, other: &Self) -> (r: bool) {
        self.weight == other.weight && self.name == other.name && self.cost == other.cost
    }
}

impl vstd::std_specs::cmp::PartialEqSpecImpl for TableEntry {
    open spec fn obeys_eq_spec() -> bool {
        true
    }

    open spec fn eq_spec(&self, other: &Self) -> bool {
        self@ == other@
    }
}

impl Eq for TableEntry {
}

impl TableEntry {
    /// An unnamed entry of weight one.
    pub fn new(cost: Currency) -> (r: Self)
        ensures
            r@ == (EntryView { weight: 1, name: seq![], cost }),
    {
        TableEntry { weight: 1, name: String::new(), cost }
    }

    /// An unnamed entry of the given weight.
    pub fn with_weight(weight: usize, cost: Currency) -> (r: Self)
        ensures
            r@ == (EntryView { weight: weight as nat, name: seq![], cost }),
    {
        TableEntry { weight, name: String::new(), cost }
    }

    pub fn weight(&self) -> (r: usize)
        ensures
            r == self@.weight,
    {
        self.weight
    }

    pub fn set_weight(&mut self, weight: usize)
        ensures
            final(self)@ == (EntryView { weight: weight as nat, ..old(self)@ }),
    {
        self.weight = weight;
    }

    pub fn name(&self) -> (r: &str)
        ensures
            r@ == self@.name,
    {
        self.name.as_str()
    }

    pub fn set_name(&mut self, name: String)
        ensures
            final(self)@ == (EntryView { name: name@, ..old(self)@ }),
    {
        self.name = name;
    }

    pub fn cost(&self) -> (r: Currency)
        ensures
            r == self@.cost,
    {
        self.cost
    }

    pub fn cost_mut(&mut self) -> (r: &mut Currency)
        ensures
            *r == old(self)@.cost,
            final(self)@ == (EntryView { cost: *final(r), ..old(self)@ }),
    {
        &mut self.cost
    }

    pub fn set_cost(&mut self, cost: Currency)
        ensures
            final(self)@ == (EntryView { cost, ..old(self)@ }),
    {
        self.cost = cost;
    }

    /// The entry as a table keeps it: the name without surrounding white
    /// space, and a cost of one unit of its denomination when it had none;
    /// `None` when nothing of the name is left.
    pub fn cleaned(self) -> (r: Option<TableEntry>)
        ensures
            match r {
                Some(e) => cleaned_entry(self@) == Some(e@),
                None => cleaned_entry(self@) is None,
            },
    {
        let name = trim(self.name.as_str());
        if name.unicode_len() == 0 {
            return None;
        }
        let cost = if self.cost.amount() == 0 {
            self.cost.with_amount(1)
        } else {
            self.cost
        };
        Some(TableEntry { weight: self.weight, name, cost })
    }

    /// Compares the names case-insensitively: the lowercase forms, as strings.
    pub fn compare_names(&self, other: &Self) -> (r: Ordering)
        ensures
            r == (if bytes_before(name_key(self@.name), name_key(other@.name)) {
                Ordering::Less
            } else if name_key(self@.name) == name_key(other@.name) {
                Ordering::Equal
            } else {
                Ordering::Greater
            }),
    {
        let a = lowercase(self.name.as_str()).as_str().as_bytes_vec();
        let b = lowercase(other.name.as_str()).as_str().as_bytes_vec();
        if bytes_less(a.as_slice(), b.as_slice()) {
            Ordering::Less
        } else if bytes_less(b.as_slice(), a.as_slice()) {
            Ordering::Greater
        } else {
            proof {
                crate::order::lemma_bytes_before_total(a@, b@);
            }
            Ordering::Equal
        }
    }
}

/// `after` holds the entries of `before` sorted case-insensitively by name,
/// entries with equal names in their order in `before`.
pub open spec fn sorted_by_name(before: Seq<EntryView>, after: Seq<EntryView>) -> bool {
    exists|order: Seq<usize>|
        #[trigger] is_stable_order(entry_keys(before), order) && after == order.map_values(
            |i: usize| before[i as int],
        )
}

/// What `TableEntry::cleaned` makes of an entry.
pub open spec fn cleaned_entry(e: EntryView) -> Option<EntryView> {
    if trimmed(e.name).len() == 0 {
        None
    } else {
        Some(
            EntryView {
                weight: e.weight,
                name: trimmed(e.name),
                cost: if e.cost.units() == 0 {
                    currency_of(e.cost.tier(), 1)
                } else {
                    e.cost
                },
            },
        )
    }
}

/// The entries that cleaning keeps, cleaned, in order.
pub open spec fn cleaned_entries(es: Seq<EntryView>) -> Seq<EntryView>
    decreases es.len(),
{
    if es.len() == 0 {
        seq![]
    } else {
        cleaned_entries(es.drop_last()) + match cleaned_entry(es.last()) {
            Some(e) => seq![e],
            None => seq![],
        }
    }
}

/// One outcome of a roll: how many times an entry was drawn, with a copy of
/// the entry as it was then.
pub ghost struct RollView {
    pub count: nat,
    pub entry: EntryView,
}

#[derive(Debug)]
pub struct RollResult {
    count: usize,
    entry: TableEntry,
}

impl View for RollResult {
    type V = RollView;

    closed spec fn view(&self) -> RollView {
        RollView { count: self.count as nat, entry: self.entry@ }
    }
}

impl Clone for RollResult {
    fn clone(&self) -> (r: Self)
        ensures
            r@ == self@,
    {
        RollResult { count: self.count, entry: self.entry.clone() }
    }
}

impl PartialEq for RollResult {
    fn eq(&self, other: &Self) -> (r: bool) {
        self.count == other.count && self.entry == other.entry
    }
}

impl vstd::std_specs::cmp::PartialEqSpecImpl for RollResult {
    open spec fn obeys_eq_spec() -> bool {
        true
    }

    open spec fn eq_spec(&self, other: &Self) -> bool {
        self@ == other@
    }
}

impl Eq for RollResult {
}

impl RollResult {
    pub fn new(count: usize, entry: TableEntry) -> (r: Self)
        ensures
            r@ == (RollView { count: count as nat, entry: entry@ }),
    {
        RollResult { count, entry }
    }

    pub fn count(&self) -> (r: usize)
        ensures
            r == self@.count,
    {
        self.count
    }

    pub fn entry(&self) -> (r: &TableEntry)
        ensures
            r@ == self@.entry,
    {
        &self.entry
    }
}

/// The views of a sequence of entries.
pub open spec fn entry_views(entries: Seq<TableEntry>) -> Seq<EntryView> {
    entries.map_values(|e: TableEntry| e@)
}

/// The sort keys of the names of a sequence of entries.
pub open spec fn entry_keys(entries: Seq<EntryView>) -> Seq<Seq<u8>> {
    entries.map_values(|e: EntryView| name_key(e.name))
}

/// The sum of the weights of the entries.
pub open spec fn weight_sum(entries: Seq<EntryView>) -> nat
    decreases entries.len(),
{
    if entries.len() == 0 {
        0
    } else {
        weight_sum(entries.drop_last()) + entries.last().weight
    }
}

/// The sum of the Copper-normalized costs of the entries.
pub open spec fn cost_sum(entries: Seq<EntryView>) -> nat
    decreases entries.len(),
{
    if entries.len() == 0 {
        0
    } else {
        cost_sum(entries.drop_last()) + entries.last().cost.value()
    }
}

/// What a table stored in a file holds.
#[derive(Debug)]
pub struct FileTableData {
    use_cost: bool,
    use_weight: bool,
    name: String,
    entries: Vec<TableEntry>,
}

impl FileTableData {
    pub fn new(use_cost: bool, use_weight: bool, name: String, entries: Vec<TableEntry>) -> (r: Self)
        ensures
            r.cost_enabled() == use_cost,
            r.weight_enabled() == use_weight,
            r.name_view() == name@,
            r.entries_view() == entry_views(entries@),
    {
        FileTableData { use_cost, use_weight, name, entries }
    }

    pub closed spec fn cost_enabled(&self) -> bool {
        self.use_cost
    }

    pub closed spec fn weight_enabled(&self) -> bool {
        self.use_weight
    }

    pub closed spec fn name_view(&self) -> Seq<char> {
        self.name@
    }

    pub closed spec fn entries_view(&self) -> Seq<EntryView> {
        entry_views(self.entries@)
    }

    pub fn use_cost(&self) -> (r: bool)
        ensures
            r == self.cost_enabled(),
    {
        self.use_cost
    }

    pub fn use_weight(&self) -> (r: bool)
        ensures
            r == self.weight_enabled(),
    {
        self.use_weight
    }

    pub fn name(&self) -> (r: &str)
        ensures
            r@ == self.name_view(),
    {
        self.name.as_str()
    }

    pub fn entries(&self) -> (r: &Vec<TableEntry>)
        ensures
            entry_views(r@) == self.entries_view(),
    {
        &self.entries
    }

    /// A table in memory, with a fresh identifier, the given tab order and
    /// the file it came from.
    /// Fails only when no entropy could be had for the identifier.
    pub fn into_table_data(self, order: usize, path: Option<PathBuf>) -> (r: Result<TableData, getrandom::Error>)
        ensures
            r is Ok ==> {
                let t = r->Ok_0;
                &&& t.cost_enabled() == self.cost_enabled()
                &&& t.weight_enabled() == self.weight_enabled()
                &&& t.name_view() == self.name_view()
                &&& t.entries_view() == self.entries_view()
                &&& t.tab_order() == order
                &&& t.path_view() == path
            },
    {
        let id = match fresh_id() {
            Ok(id) => id,
            Err(e) => {
                return Err(e);
            },
        };
        Ok(
            TableData {
                use_weight: self.use_weight,
                use_cost: self.use_cost,
                id,
                order,
                name: self.name,
                entries: self.entries,
                path,
            },
        )
    }
}

/// A random table: its settings, its entries in order and where it is stored.
#[derive(Debug)]
pub struct TableData {
    use_cost: bool,
    use_weight: bool,
    id: Uuid,
    order: usize,
    name: String,
    entries: Vec<TableEntry>,
    path: Option<PathBuf>,
}

impl TableData {
    pub closed spec fn cost_enabled(&self) -> bool {
        self.use_cost
    }

    pub closed spec fn weight_enabled(&self) -> bool {
        self.use_weight
    }

    pub closed spec fn id_view(&self) -> Uuid {
        self.id
    }

    pub closed spec fn tab_order(&self) -> nat {
        self.order as nat
    }

    pub closed spec fn name_view(&self) -> Seq<char> {
        self.name@
    }

    pub closed spec fn entries_view(&self) -> Seq<EntryView> {
        entry_views(self.entries@)
    }

    pub closed spec fn path_view(&self) -> Option<PathBuf> {
        self.path
    }

    pub(crate) fn entry_list(&self) -> (r: &Vec<TableEntry>)
        ensures
            entry_views(r@) == self.entries_view(),
    {
        &self.entries
    }

    /// An empty table with a fresh identifier, not yet stored anywhere;
    /// fails only when no entropy could be had for the identifier.
    pub fn new(use_cost: bool, use_weight: bool, name: String, order: usize) -> (r: Result<TableData, getrandom::Error>)
        ensures
            r is Ok ==> {
                let t = r->Ok_0;
                &&& t.cost_enabled() == use_cost
                &&& t.weight_enabled() == use_weight
                &&& t.name_view() == name@
                &&& t.entries_view() == Seq::<EntryView>::empty()
                &&& t.tab_order() == order
                &&& t.path_view() is None
            },
    {
        let id = match fresh_id() {
            Ok(id) => id,
            Err(e) => {
                return Err(e);
            },
        };
        Ok(TableData { use_cost, use_weight, order, id, name, entries: Vec::new(), path: None })
    }

    /// An empty table with room reserved for `capacity` entries; fails only
    /// when no entropy could be had for the identifier.
    pub fn with_capacity(use_cost: bool, use_weight: bool, name: String, capacity: usize, order: usize) -> (r: Result<TableData, getrandom::Error>)
        ensures
            r is Ok ==> {
                let t = r->Ok_0;
                &&& t.cost_enabled() == use_cost
                &&& t.weight_enabled() == use_weight
                &&& t.name_view() == name@
                &&& t.entries_view() == Seq::<EntryView>::empty()
                &&& t.tab_order() == order
                &&& t.path_view() is None
            },
    {
        let id = match fresh_id() {
            Ok(id) => id,
            Err(e) => {
                return Err(e);
            },
        };
        Ok(TableData { use_cost, use_weight, order, id, name, entries: Vec::with_capacity(capacity), path: None })
    }

    /// Sorts the entries case-insensitively by name; entries with equal
    /// names keep their order.
    pub fn sort(&mut self)
        ensures
            sorted_by_name(old(self).entries_view(), final(self).entries_view()),
            final(self).cost_enabled() == old(self).cost_enabled(),
            final(self).weight_enabled() == old(self).weight_enabled(),
            final(self).id_view() == old(self).id_view(),
            final(self).tab_order() == old(self).tab_order(),
            final(self).name_view() == old(self).name_view(),
            final(self).path_view() == old(self).path_view(),
    {
        let ghost ev = self.entries_view();
        let n = self.entries.len();
        let mut names: Vec<&str> = Vec::new();
        let mut k: usize = 0;
        while k < n
            invariant
                n == self.entries@.len(),
                k <= n,
                names@.len() == k,
                forall|m: int| 0 <= m < k ==> #[trigger] names@[m]@ == self.entries@[m]@.name,
            decreases n - k,
        {
            names.push(self.entries[k].name.as_str());
            k = k + 1;
        }
        let keys = name_keys(&names);
        let order = stable_order(&keys);
        proof {
            assert(keys@.map_values(|b: Vec<u8>| b@) =~= entry_keys(ev));
        }
        let mut sorted: Vec<TableEntry> = Vec::new();
        k = 0;
        while k < n
            invariant
                n == self.entries@.len(),
                ev == self.entries_view(),
                is_stable_order(entry_keys(ev), order@),
                k <= n,
                sorted@.len() == k,
                forall|m: int| 0 <= m < k ==> #[trigger] sorted@[m]@ == ev[order@[m] as int],
            decreases n - k,
        {
            sorted.push(self.entries[order[k]].clone());
            k = k + 1;
        }
        self.entries = sorted;
        proof {
            assert(self.entries_view() =~= order@.map_values(|i: usize| ev[i as int]));
            assert(is_stable_order(entry_keys(ev), order@));
        }
    }

    /// Adds the entries that cleaning keeps, cleaned, then sorts the table
    /// case-insensitively by name.
    pub fn add_entries(&mut self, entries: Vec<TableEntry>)
        ensures
            sorted_by_name(
                old(self).entries_view() + cleaned_entries(entry_views(entries@)),
                final(self).entries_view(),
            ),
            final(self).cost_enabled() == old(self).cost_enabled(),
            final(self).weight_enabled() == old(self).weight_enabled(),
            final(self).id_view() == old(self).id_view(),
            final(self).tab_order() == old(self).tab_order(),
            final(self).name_view() == old(self).name_view(),
            final(self).path_view() == old(self).path_view(),
    {
        let ghost added = entry_views(entries@);
        let ghost start = self.entries_view();
        let n = entries.len();
        let mut k: usize = 0;
        while k < n
            invariant
                n == added.len(),
                k <= n,
                added == entry_views(entries@),
                self.entries_view() == start + cleaned_entries(added.take(k as int)),
                self.cost_enabled() == old(self).cost_enabled(),
                self.weight_enabled() == old(self).weight_enabled(),
                self.id_view() == old(self).id_view(),
                self.tab_order() == old(self).tab_order(),
                self.name_view() == old(self).name_view(),
                self.path_view() == old(self).path_view(),
                start == old(self).entries_view(),
            decreases n - k,
        {
            let entry = entries[k].clone();
            proof {
                assert(added.take(k + 1).drop_last() =~= added.take(k as int));
            }
            match entry.cleaned() {
                Some(e) => {
                    self.push(e);
                    proof {
                        assert(self.entries_view() =~= start + cleaned_entries(added.take(k + 1)));
                    }
                },
                None => {
                    proof {
                        assert(self.entries_view() =~= start + cleaned_entries(added.take(k + 1)));
                    }
                },
            }
            k = k + 1;
        }
        proof {
            assert(added.take(n as int) =~= added);
        }
        self.sort();
    }

    /// What of the table is stored in a file.
    pub fn to_file_data(&self) -> (r: FileTableData)
        ensures
            r.cost_enabled() == self.cost_enabled(),
            r.weight_enabled() == self.weight_enabled(),
            r.name_view() == self.name_view(),
            r.entries_view() == self.entries_view(),
    {
        FileTableData {
            use_weight: self.use_weight,
            use_cost: self.use_cost,
            name: self.name.clone(),
            entries: clone_entries(&self.entries),
        }
    }

    /// The sum of the entries' weights.
    pub fn total_weight(&self) -> (r: usize)
        requires
            weight_sum(self.entries_view()) <= usize::MAX,
        ensures
            r == weight_sum(self.entries_view()),
    {
        let mut total: usize = 0;
        let mut k: usize = 0;
        while k < self.entries.len()
            invariant
                k <= self.entries@.len(),
                weight_sum(self.entries_view()) <= usize::MAX,
                total == weight_sum(self.entries_view().take(k as int)),
            decreases self.entries@.len() - k,
        {
            proof {
                let es = self.entries_view();
                assert(es.take(k + 1).drop_last() =~= es.take(k as int));
                lemma_weight_sum_prefix(es, k + 1);
            }
            total = total + self.entries[k].weight;
            k = k + 1;
        }
        proof {
            assert(self.entries_view().take(k as int) =~= self.entries_view());
        }
        total
    }

    /// The sum of the entries' costs in its largest denomination; `Overflow`
    /// when the Copper-normalized sum does not fit in 64 bits.
    pub fn total_cost(&self) -> (r: Result<Currency, CurrencyError>)
        ensures
            cost_sum(self.entries_view()) <= u64::MAX ==> r == Ok::<Currency, CurrencyError>(
                Currency::Copper(cost_sum(self.entries_view()) as u64).largest_denomination(),
            ),
            cost_sum(self.entries_view()) > u64::MAX ==> r == Err::<Currency, CurrencyError>(
                CurrencyError::Overflow,
            ),
    {
        let mut total: u64 = 0;
        let mut k: usize = 0;
        while k < self.entries.len()
            invariant
                k <= self.entries@.len(),
                total == cost_sum(self.entries_view().take(k as int)),
            decreases self.entries@.len() - k,
        {
            proof {
                let es = self.entries_view();
                assert(es.take(k + 1).drop_last() =~= es.take(k as int));
            }
            let next = total as u128 + self.entries[k].cost.copper_value();
            if next > u64::MAX as u128 {
                proof {
                    lemma_cost_sum_prefix(self.entries_view(), k + 1);
                }
                return Err(CurrencyError::Overflow);
            }
            total = next as u64;
            k = k + 1;
        }
        proof {
            assert(self.entries_view().take(k as int) =~= self.entries_view());
        }
        Ok(Currency::from(total))
    }
}

/// A copy of each entry.
fn clone_entries(entries: &Vec<TableEntry>) -> (r: Vec<TableEntry>)
    ensures
        entry_views(r@) == entry_views(entries@),
{
    let mut r: Vec<TableEntry> = Vec::new();
    let mut k: usize = 0;
    while k < entries.len()
        invariant
            k <= entries@.len(),
            r@.len() == k,
            forall|m: int| 0 <= m < k ==> #[trigger] r@[m]@ == entries@[m]@,
        decreases entries@.len() - k,
    {
        r.push(entries[k].clone());
        k = k + 1;
    }
    proof {
        assert(entry_views(r@) =~= entry_views(entries@));
    }
    r
}

/// A prefix of the entries weighs no more than all of them.
proof fn lemma_weight_sum_prefix(entries: Seq<EntryView>, k: int)
    requires
        0 <= k <= entries.len(),
    ensures
        weight_sum(entries.take(k)) <= weight_sum(entries),
    decreases entries.len(),
{
    if k < entries.len() {
        assert(entries.drop_last().take(k) =~= entries.take(k));
        lemma_weight_sum_prefix(entries.drop_last(), k);
    } else {
        assert(entries.take(k) =~= entries);
    }
}

/// A prefix of the entries costs no more than all of them.
proof fn lemma_cost_sum_prefix(entries: Seq<EntryView>, k: int)
    requires
        0 <= k <= entries.len(),
    ensures
        cost_sum(entries.take(k)) <= cost_sum(entries),
    decreases entries.len(),
{
    if k < entries.len() {
        assert(entries.drop_last().take(k) =~= entries.take(k));
        lemma_cost_sum_prefix(entries.drop_last(), k);
    } else {
        assert(entries.take(k) =~= entries);
    }
}

impl TableData {
    pub fn use_cost(&self) -> (r: bool)
        ensures
            r == self.cost_enabled(),
    {
        self.use_cost
    }

    pub fn set_use_cost(&mut self, use_cost: bool)
        ensures
            final(self).cost_enabled() == use_cost,
            final(self).weight_enabled() == old(self).weight_enabled(),
            final(self).id_view() == old(self).id_view(),
            final(self).tab_order() == old(self).tab_order(),
            final(self).name_view() == old(self).name_view(),
            final(self).entries_view() == old(self).entries_view(),
            final(self).path_view() == old(self).path_view(),
    {
        self.use_cost = use_cost;
    }

    pub fn use_weight(&self) -> (r: bool)
        ensures
            r == self.weight_enabled(),
    {
        self.use_weight
    }

    pub fn set_use_weight(&mut self, use_weight: bool)
        ensures
            final(self).weight_enabled() == use_weight,
            final(self).cost_enabled() == old(self).cost_enabled(),
            final(self).id_view() == old(self).id_view(),
            final(self).tab_order() == old(self).tab_order(),
            final(self).name_view() == old(self).name_view(),
            final(self).entries_view() == old(self).entries_view(),
            final(self).path_view() == old(self).path_view(),
    {
        self.use_weight = use_weight;
    }

    pub fn id(&self) -> (r: Uuid)
        ensures
            r == self.id_view(),
    {
        self.id
    }

    pub fn name(&self) -> (r: &str)
        ensures
            r@ == self.name_view(),
    {
        self.name.as_str()
    }

    pub fn set_name(&mut self, name: String)
        ensures
            final(self).name_view() == name@,
            final(self).cost_enabled() == old(self).cost_enabled(),
            final(self).weight_enabled() == old(self).weight_enabled(),
            final(self).id_view() == old(self).id_view(),
            final(self).tab_order() == old(self).tab_order(),
            final(self).entries_view() == old(self).entries_view(),
            final(self).path_view() == old(self).path_view(),
    {
        self.name = name;
    }

    pub fn order(&self) -> (r: usize)
        ensures
            r == self.tab_order(),
    {
        self.order
    }

    pub fn set_order(&mut self, order: usize)
        ensures
            final(self).tab_order() == order,
            final(self).cost_enabled() == old(self).cost_enabled(),
            final(self).weight_enabled() == old(self).weight_enabled(),
            final(self).id_view() == old(self).id_view(),
            final(self).name_view() == old(self).name_view(),
            final(self).entries_view() == old(self).entries_view(),
            final(self).path_view() == old(self).path_view(),
    {
        self.order = order;
    }

    pub fn path(&self) -> (r: Option<PathBuf>)
        ensures
            r == self.path_view(),
    {
        match &self.path {
            Some(p) => Some(copy_path(p)),
            None => None,
        }
    }

    pub fn set_path(&mut self, path: Option<PathBuf>)
        ensures
            final(self).path_view() == path,
            final(self).cost_enabled() == old(self).cost_enabled(),
            final(self).weight_enabled() == old(self).weight_enabled(),
            final(self).id_view() == old(self).id_view(),
            final(self).tab_order() == old(self).tab_order(),
            final(self).name_view() == old(self).name_view(),
            final(self).entries_view() == old(self).entries_view(),
    {
        self.path = path;
    }

    /// The number of entries.
    pub fn len(&self) -> (r: usize)
        ensures
            r == self.entries_view().len(),
    {
        self.entries.len()
    }

    pub fn iter(&self) -> (r: std::slice::Iter<'_, TableEntry>)
        ensures
            entry_views(vstd::std_specs::slice::into_iter_elts(r)) == self.entries_view(),
    {
        self.entries.iter()
    }

    /// Appends an entry.
    pub fn push(&mut self, item: TableEntry)
        ensures
            final(self).entries_view() == old(self).entries_view().push(item@),
            final(self).cost_enabled() == old(self).cost_enabled(),
            final(self).weight_enabled() == old(self).weight_enabled(),
            final(self).id_view() == old(self).id_view(),
            final(self).tab_order() == old(self).tab_order(),
            final(self).name_view() == old(self).name_view(),
            final(self).path_view() == old(self).path_view(),
    {
        self.entries.push(item);
        proof {
            assert(self.entries_view() =~= old(self).entries_view().push(item@));
        }
    }

    /// The entry at `index`, if there is one.
    pub fn get(&self, index: usize) -> (r: Option<&TableEntry>)
        ensures
            index < self.entries_view().len() ==> r is Some && r->Some_0@ == self.entries_view()[index as int],
            index >= self.entries_view().len() ==> r is None,
    {
        if index < self.entries.len() {
            Some(&self.entries[index])
        } else {
            None
        }
    }

    pub fn entries(&self) -> (r: &Vec<TableEntry>)
        ensures
            entry_views(r@) == self.entries_view(),
    {
        &self.entries
    }

    pub fn entries_mut(&mut self) -> (r: &mut Vec<TableEntry>)
        ensures
            entry_views(r@) == old(self).entries_view(),
            final(self).entries_view() == entry_views(final(r)@),
            final(self).cost_enabled() == old(self).cost_enabled(),
            final(self).weight_enabled() == old(self).weight_enabled(),
            final(self).id_view() == old(self).id_view(),
            final(self).tab_order() == old(self).tab_order(),
            final(self).name_view() == old(self).name_view(),
            final(self).path_view() == old(self).path_view(),
    {
        &mut self.entries
    }

    /// The entry at `index`, to change in place, if there is one.
    pub fn get_mut(&mut self, index: usize) -> (r: Option<&mut TableEntry>)
        ensures
            index < old(self).entries_view().len() ==> r is Some && (*r->Some_0)@ == old(
                self,
            ).entries_view()[index as int] && final(self).entries_view() == old(
                self,
            ).entries_view().update(index as int, final(r->Some_0)@),
            index >= old(self).entries_view().len() ==> r is None && final(self).entries_view()
                == old(self).entries_view(),
            final(self).cost_enabled() == old(self).cost_enabled(),
            final(self).weight_enabled() == old(self).weight_enabled(),
            final(self).id_view() == old(self).id_view(),
            final(self).tab_order() == old(self).tab_order(),
            final(self).name_view() == old(self).name_view(),
            final(self).path_view() == old(self).path_view(),
    {
        if index < self.entries.len() {
            Some(&mut self.entries[index])
        } else {
            None
        }
    }

    /// Replaces all entries.
    pub fn set_entries(&mut self, entries: Vec<TableEntry>)
        ensures
            final(self).entries_view() == entry_views(entries@),
            final(self).cost_enabled() == old(self).cost_enabled(),
            final(self).weight_enabled() == old(self).weight_enabled(),
            final(self).id_view() == old(self).id_view(),
            final(self).tab_order() == old(self).tab_order(),
            final(self).name_view() == old(self).name_view(),
            final(self).path_view() == old(self).path_view(),
    {
        self.entries = entries;
    }

    /// Removes and returns the entry at `index`; `None`, with the table
    /// unchanged, when there is no such entry.
    pub fn remove(&mut self, index: usize) -> (r: Option<TableEntry>)
        ensures
            index < old(self).entries_view().len() ==> r is Some && r->Some_0@
                == old(self).entries_view()[index as int] && final(self).entries_view()
                == old(self).entries_view().remove(index as int),
            index >= old(self).entries_view().len() ==> r is None && final(self).entries_view()
                == old(self).entries_view(),
            final(self).cost_enabled() == old(self).cost_enabled(),
            final(self).weight_enabled() == old(self).weight_enabled(),
            final(self).id_view() == old(self).id_view(),
            final(self).tab_order() == old(self).tab_order(),
            final(self).name_view() == old(self).name_view(),
            final(self).path_view() == old(self).path_view(),
    {
        if index >= self.entries.len() {
            None
        } else {
            let e = self.entries.remove(index);
            proof {
                assert(self.entries_view() =~= old(self).entries_view().remove(index as int));
            }
            Some(e)
        }
    }
}

} // verus!
