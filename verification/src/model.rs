//! The document model: a tree of tables, arrays and scalar values, each node
//! carrying the decoration (comments, blank lines, whitespace) that the
//! original text attached to it. The sort engine reorders nodes of this tree
//! and never touches the decoration text itself.

use vstd::prelude::*;

verus! {

/// Decoration attached to a node: the raw text standing before it (`prefix`)
/// and after it (`suffix`). `None` means "render with default formatting".
pub struct Decor {
    pub prefix: Option<String>,
    pub suffix: Option<String>,
}

/// A scalar value: either a string (whose content the array sorter compares)
/// or any other value, kept only as its raw text.
pub enum Val {
    /// A string value: its content and its decoration.
    Str { text: String, decor: Decor },
    /// Any other value (integer, boolean, date, inline table, nested array):
    /// its raw text and its decoration.
    Other { repr: String, decor: Decor },
}

/// An array value, with the trailing text and trailing-comma flag that must
/// survive sorting.
pub struct Arr {
    pub items: Vec<Val>,
    pub trailing: Option<String>,
    pub trailing_comma: bool,
}

/// One entry of a table: its key, the key's decoration, and the item.
pub struct Entry {
    pub key: String,
    pub key_decor: Decor,
    pub item: Item,
}

/// A table: its entries in textual order, whether it was written explicitly
/// (`implicit == false`), whether it is a dotted table, and its output
/// position among siblings, if one was assigned.
pub struct Table {
    pub entries: Vec<Entry>,
    pub implicit: bool,
    pub dotted: bool,
    pub position: Option<usize>,
    pub decor: Decor,
}

/// The item a key maps to.
pub enum Item {
    Val(Val),
    Arr(Arr),
    Tbl(Table),
    TblArr(Vec<Table>),
}

/// Mathematical mirror of `Decor`.
#[verifier::ext_equal]
pub struct DecorV {
    pub prefix: Option<Seq<char>>,
    pub suffix: Option<Seq<char>>,
}

/// Mathematical mirror of `Val`.
#[verifier::ext_equal]
pub enum ValV {
    Str { text: Seq<char>, decor: DecorV },
    Other { repr: Seq<char>, decor: DecorV },
}

/// Mathematical mirror of `Arr`.
#[verifier::ext_equal]
pub struct ArrV {
    pub items: Seq<ValV>,
    pub trailing: Option<Seq<char>>,
    pub trailing_comma: bool,
}

/// Mathematical mirror of `Entry`.
#[verifier::ext_equal]
pub struct EntryV {
    pub key: Seq<char>,
    pub key_decor: DecorV,
    pub item: ItemV,
}

/// Mathematical mirror of `Table`.
#[verifier::ext_equal]
pub struct TableV {
    pub entries: Seq<EntryV>,
    pub implicit: bool,
    pub dotted: bool,
    pub position: Option<usize>,
    pub decor: DecorV,
}

/// Mathematical mirror of `Item`.
#[verifier::ext_equal]
pub enum ItemV {
    Val(ValV),
    Arr(ArrV),
    Tbl(TableV),
    TblArr(Seq<TableV>),
}

pub open spec fn view_opt_string(s: Option<String>) -> Option<Seq<char>> {
    match s {
        Option::Some(t) => Option::Some(t@),
        Option::None => Option::None,
    }
}

pub open spec fn view_decor(d: Decor) -> DecorV {
    DecorV { prefix: view_opt_string(d.prefix), suffix: view_opt_string(d.suffix) }
}

pub open spec fn view_val(v: Val) -> ValV {
    match v {
        Val::Str { text, decor } => ValV::Str { text: text@, decor: view_decor(decor) },
        Val::Other { repr, decor } => ValV::Other { repr: repr@, decor: view_decor(decor) },
    }
}

pub open spec fn view_arr(a: Arr) -> ArrV {
    ArrV {
        items: a.items@.map(|i: int, v: Val| view_val(v)),
        trailing: view_opt_string(a.trailing),
        trailing_comma: a.trailing_comma,
    }
}

pub open spec fn view_item(it: Item) -> ItemV
    decreases it,
{
    match it {
        Item::Val(v) => ItemV::Val(view_val(v)),
        Item::Arr(a) => ItemV::Arr(view_arr(a)),
        Item::Tbl(t) => ItemV::Tbl(view_table(t)),
        Item::TblArr(ts) => ItemV::TblArr(view_tables_vec(ts)),
    }
}

pub open spec fn view_tables_vec(ts: Vec<Table>) -> Seq<TableV>
    decreases ts,
{
    view_tables(ts@)
}

pub open spec fn view_tables(s: Seq<Table>) -> Seq<TableV>
    decreases s,
{
    if s.len() == 0 {
        Seq::empty()
    } else {
        view_tables(s.subrange(0, s.len() - 1)).push(view_table(s[s.len() - 1]))
    }
}

pub open spec fn view_entry(e: Entry) -> EntryV
    decreases e,
{
    EntryV { key: e.key@, key_decor: view_decor(e.key_decor), item: view_item(e.item) }
}

pub open spec fn view_entries_vec(v: Vec<Entry>) -> Seq<EntryV>
    decreases v,
{
    view_entries(v@)
}

pub open spec fn view_entries(s: Seq<Entry>) -> Seq<EntryV>
    decreases s,
{
    if s.len() == 0 {
        Seq::empty()
    } else {
        view_entries(s.subrange(0, s.len() - 1)).push(view_entry(s[s.len() - 1]))
    }
}

pub open spec fn view_table(t: Table) -> TableV
    decreases t,
{
    TableV {
        entries: view_entries_vec(t.entries),
        implicit: t.implicit,
        dotted: t.dotted,
        position: t.position,
        decor: view_decor(t.decor),
    }
}

/// `view_entries` maps the view over the sequence, element by element.
pub broadcast proof fn lemma_view_entries(s: Seq<Entry>)
    ensures
        #[trigger] view_entries(s).len() == s.len(),
        forall|i: int| 0 <= i < s.len() ==> view_entries(s)[i] == view_entry(s[i]),
    decreases s.len(),
{
    if s.len() > 0 {
        lemma_view_entries(s.subrange(0, s.len() - 1));
        assert forall|i: int| 0 <= i < s.len() implies view_entries(s)[i] == view_entry(s[i]) by {
            if i < s.len() - 1 {
                assert(s.subrange(0, s.len() - 1)[i] == s[i]);
            }
        }
    }
}

/// `view_tables` maps the view over the sequence, element by element.
pub broadcast proof fn lemma_view_tables(s: Seq<Table>)
    ensures
        #[trigger] view_tables(s).len() == s.len(),
        forall|i: int| 0 <= i < s.len() ==> view_tables(s)[i] == view_table(s[i]),
    decreases s.len(),
{
    if s.len() > 0 {
        lemma_view_tables(s.subrange(0, s.len() - 1));
        assert forall|i: int| 0 <= i < s.len() implies view_tables(s)[i] == view_table(s[i]) by {
            if i < s.len() - 1 {
                assert(s.subrange(0, s.len() - 1)[i] == s[i]);
            }
        }
    }
}

impl View for Decor {
    type V = DecorV;

    open spec fn view(&self) -> DecorV {
        view_decor(*self)
    }
}

impl View for Val {
    type V = ValV;

    open spec fn view(&self) -> ValV {
        view_val(*self)
    }
}

impl View for Arr {
    type V = ArrV;

    open spec fn view(&self) -> ArrV {
        view_arr(*self)
    }
}

impl View for Entry {
    type V = EntryV;

    open spec fn view(&self) -> EntryV {
        view_entry(*self)
    }
}

impl View for Table {
    type V = TableV;

    open spec fn view(&self) -> TableV {
        view_table(*self)
    }
}

impl View for Item {
    type V = ItemV;

    open spec fn view(&self) -> ItemV {
        view_item(*self)
    }
}

} // verus!
