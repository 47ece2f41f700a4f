use vstd::prelude::*;
use vstd::string::*;
use crate::error::{ErrorKind, ParseError};
use crate::parser::{key, lines_model, spec_key, spec_statements, statement_model, statements, Line, Statement, StatementModel};
use crate::text::to_chars;
use crate::value::{key_model, value_model, KeyValue, Value, ValueModel};

verus! {

/// How a table came to be.
#[derive(Clone, Copy, Debug, PartialEq, Eq, Structural)]
pub enum TableKind {
    /// The document itself.
    Root,
    /// Introduced by a `[header]` or a `[[header]]`.
    Explicit,
    /// Created only as an ancestor of a dotted key or of a nested header.
    Implicit,
}

/// A table of the document: its entries in the order their keys first appeared.
#[derive(Debug)]
pub struct Table {
    pub kind: TableKind,
    pub entries: Vec<Entry>,
}

/// One key of a table and what it holds.
#[derive(Debug)]
pub struct Entry {
    pub key: String,
    pub item: Item,
}

/// What a key of a table holds.
#[derive(Debug)]
pub enum Item {
    Value(Value),
    Table(Table),
    ArrayOfTables(Vec<Table>),
}

/// The mathematical content of a [`Table`].
pub struct TableModel {
    pub kind: TableKind,
    pub entries: Seq<(Seq<char>, ItemModel)>,
}

/// The mathematical content of an [`Item`].
pub enum ItemModel {
    Value(ValueModel),
    Table(TableModel),
    ArrayOfTables(Seq<TableModel>),
}

pub open spec fn table_model(t: Table) -> TableModel
    decreases t,
{
    TableModel {
        kind: t.kind,
        entries: Seq::new(
            t.entries@.len(),
            |j: int|
                if 0 <= j < t.entries@.len() {
                    (t.entries@[j].key@, item_model(t.entries@[j].item))
                } else {
                    (Seq::empty(), ItemModel::Value(ValueModel::Boolean(false)))
                },
        ),
    }
}

pub open spec fn item_model(i: Item) -> ItemModel
    decreases i,
{
    match i {
        Item::Value(v) => ItemModel::Value(value_model(v)),
        Item::Table(t) => ItemModel::Table(table_model(t)),
        Item::ArrayOfTables(ts) => ItemModel::ArrayOfTables(
            Seq::new(
                ts@.len(),
                |m: int|
                    if 0 <= m < ts@.len() {
                        table_model(ts@[m])
                    } else {
                        TableModel { kind: TableKind::Implicit, entries: Seq::empty() }
                    },
            ),
        ),
    }
}

pub open spec fn entries_model(es: Seq<Entry>) -> Seq<(Seq<char>, ItemModel)> {
    es.map_values(|e: Entry| (e.key@, item_model(e.item)))
}

pub open spec fn tables_model(ts: Seq<Table>) -> Seq<TableModel> {
    ts.map_values(|t: Table| table_model(t))
}

pub proof fn lemma_table_model(t: Table)
    ensures
        table_model(t) == (TableModel { kind: t.kind, entries: entries_model(t.entries@) }),
{
    assert(table_model(t).entries =~= entries_model(t.entries@));
}

pub proof fn lemma_array_of_tables_model(ts: Vec<Table>)
    ensures
        item_model(Item::ArrayOfTables(ts)) == ItemModel::ArrayOfTables(tables_model(ts@)),
{
    assert(item_model(Item::ArrayOfTables(ts))->ArrayOfTables_0 =~= tables_model(ts@));
}

/// A table of the given kind with no entries.
pub open spec fn empty_table(kind: TableKind) -> TableModel {
    TableModel { kind, entries: Seq::empty() }
}

/// The index of the first entry from `i` on whose key is `k`; -1 where there is none.
pub open spec fn key_index(es: Seq<(Seq<char>, ItemModel)>, k: Seq<char>, i: int) -> int
    decreases es.len() - i,
{
    if !(0 <= i < es.len()) {
        -1
    } else if es[i].0 == k {
        i
    } else {
        key_index(es, k, i + 1)
    }
}

pub proof fn lemma_key_index(es: Seq<(Seq<char>, ItemModel)>, k: Seq<char>, i: int)
    requires
        0 <= i,
    ensures
        key_index(es, k, i) == -1 || (i <= key_index(es, k, i) < es.len() && es[key_index(es, k, i)].0 == k),
        key_index(es, k, i) == -1 ==> forall|j: int| i <= j < es.len() ==> es[j].0 != k,
    decreases es.len() - i,
{
    if 0 <= i < es.len() && es[i].0 != k {
        lemma_key_index(es, k, i + 1);
    }
}

/// What a statement asks of the table at the end of its path.
pub enum Action {
    OpenTable,
    OpenArray,
    SetValue(Value),
}

pub enum ActionModel {
    OpenTable,
    OpenArray,
    SetValue(ValueModel),
}

pub open spec fn action_model(a: Action) -> ActionModel {
    match a {
        Action::OpenTable => ActionModel::OpenTable,
        Action::OpenArray => ActionModel::OpenArray,
        Action::SetValue(v) => ActionModel::SetValue(value_model(v)),
    }
}

/// `t` with an entry added at the end.
pub open spec fn with_entry(t: TableModel, k: Seq<char>, item: ItemModel) -> TableModel {
    TableModel { kind: t.kind, entries: t.entries.push((k, item)) }
}

/// `t` with its entry at `j` replaced.
pub open spec fn with_entry_at(t: TableModel, j: int, k: Seq<char>, item: ItemModel) -> TableModel {
    TableModel { kind: t.kind, entries: t.entries.update(j, (k, item)) }
}

/// The action at key `k` of `t`:
/// - opening a table makes a new explicit table, or completes an implicit one; a table that
///   is already explicit is a duplicate;
/// - opening an array of tables appends a new explicit table to it, making it where needed;
/// - setting a value adds it where the key is new; an existing key is a duplicate.
pub open spec fn spec_apply(t: TableModel, k: Seq<char>, a: ActionModel) -> Result<TableModel, ErrorKind> {
    let j = key_index(t.entries, k, 0);
    match a {
        ActionModel::OpenTable => if j < 0 {
            Ok(with_entry(t, k, ItemModel::Table(empty_table(TableKind::Explicit))))
        } else {
            match t.entries[j].1 {
                ItemModel::Table(c) => if c.kind == TableKind::Implicit {
                    Ok(with_entry_at(t, j, k, ItemModel::Table(TableModel { kind: TableKind::Explicit, entries: c.entries })))
                } else {
                    Err(ErrorKind::DuplicateTable)
                },
                ItemModel::ArrayOfTables(_) => Err(ErrorKind::TableArrayConflict),
                ItemModel::Value(_) => Err(ErrorKind::NotATable),
            }
        },
        ActionModel::OpenArray => if j < 0 {
            Ok(with_entry(t, k, ItemModel::ArrayOfTables(seq![empty_table(TableKind::Explicit)])))
        } else {
            match t.entries[j].1 {
                ItemModel::ArrayOfTables(ts) => Ok(
                    with_entry_at(t, j, k, ItemModel::ArrayOfTables(ts.push(empty_table(TableKind::Explicit)))),
                ),
                ItemModel::Table(_) => Err(ErrorKind::TableArrayConflict),
                ItemModel::Value(_) => Err(ErrorKind::NotATable),
            }
        },
        ActionModel::SetValue(v) => if j < 0 {
            Ok(with_entry(t, k, ItemModel::Value(v)))
        } else {
            Err(ErrorKind::DuplicateKey)
        },
    }
}

/// Follows `path` from `t` and applies `a` at its last segment. A missing table on the way is
/// made implicit; an array of tables is entered through its last table within the first
/// `through` segments, and is a conflict after them; a value on the way is not a table.
pub open spec fn spec_descend(t: TableModel, path: Seq<Seq<char>>, through: nat, a: ActionModel) -> Result<TableModel, ErrorKind>
    decreases path.len(),
{
    if path.len() == 0 {
        Err(ErrorKind::InvalidKey)
    } else if path.len() == 1 {
        spec_apply(t, path[0], a)
    } else {
        let k = path[0];
        let rest = path.drop_first();
        let next: nat = if through > 0 {
            (through - 1) as nat
        } else {
            0
        };
        let j = key_index(t.entries, k, 0);
        if j < 0 {
            match spec_descend(empty_table(TableKind::Implicit), rest, next, a) {
                Ok(c) => Ok(with_entry(t, k, ItemModel::Table(c))),
                Err(e) => Err(e),
            }
        } else {
            match t.entries[j].1 {
                ItemModel::Table(c) => match spec_descend(c, rest, next, a) {
                    Ok(c2) => Ok(with_entry_at(t, j, k, ItemModel::Table(c2))),
                    Err(e) => Err(e),
                },
                ItemModel::ArrayOfTables(ts) => if through > 0 && ts.len() > 0 {
                    match spec_descend(ts.last(), rest, next, a) {
                        Ok(c2) => Ok(with_entry_at(t, j, k, ItemModel::ArrayOfTables(ts.update(ts.len() - 1, c2)))),
                        Err(e) => Err(e),
                    }
                } else {
                    Err(ErrorKind::TableArrayConflict)
                },
                ItemModel::Value(_) => Err(ErrorKind::NotATable),
            }
        }
    }
}

/// Folds the statements from the `i`-th on into `root`; `current` is the path of the table
/// that the last header opened. A header opens its table and becomes current; a pair is set
/// relative to the current table. The first failure is reported at its statement's offset.
pub open spec fn spec_fold(root: TableModel, current: Seq<Seq<char>>, lines: Seq<(StatementModel, int)>, i: int) -> Result<TableModel, ParseError>
    decreases lines.len() - i,
{
    if !(0 <= i < lines.len()) {
        Ok(root)
    } else {
        let off = lines[i].1;
        match lines[i].0 {
            StatementModel::Table(path) => match spec_descend(root, path, path.len(), ActionModel::OpenTable) {
                Ok(r) => spec_fold(r, path, lines, i + 1),
                Err(k) => Err(ParseError { kind: k, offset: off as usize }),
            },
            StatementModel::ArrayTable(path) => match spec_descend(root, path, path.len(), ActionModel::OpenArray) {
                Ok(r) => spec_fold(r, path, lines, i + 1),
                Err(k) => Err(ParseError { kind: k, offset: off as usize }),
            },
            StatementModel::Pair(key, v) => match spec_descend(root, current + key, current.len(), ActionModel::SetValue(v)) {
                Ok(r) => spec_fold(r, current, lines, i + 1),
                Err(k) => Err(ParseError { kind: k, offset: off as usize }),
            },
        }
    }
}

/// The document that a sequence of statements builds, from an empty root table.
pub open spec fn spec_assemble(lines: Seq<(StatementModel, int)>) -> Result<TableModel, ParseError> {
    spec_fold(empty_table(TableKind::Root), Seq::empty(), lines, 0)
}

proof fn lemma_entries_push(es: Seq<Entry>, e: Entry)
    ensures
        entries_model(es.push(e)) == entries_model(es).push((e.key@, item_model(e.item))),
{
    assert(entries_model(es.push(e)) =~= entries_model(es).push((e.key@, item_model(e.item))));
}

proof fn lemma_entries_replace(es: Seq<Entry>, j: int, e: Entry)
    requires
        0 <= j < es.len(),
    ensures
        entries_model(es.remove(j).insert(j, e)) == entries_model(es).update(j, (e.key@, item_model(e.item))),
{
    assert(entries_model(es.remove(j).insert(j, e)) =~= entries_model(es).update(j, (e.key@, item_model(e.item))));
}

/// The index of the entry whose key is `k`.
fn find_entry(es: &Vec<Entry>, k: &String) -> (r: Option<usize>)
    ensures
        match r {
            Some(j) => j as int == key_index(entries_model(es@), k@, 0) && j < es@.len(),
            None => key_index(entries_model(es@), k@, 0) == -1,
        },
{
    let ghost em = entries_model(es@);
    let mut j: usize = 0;
    while j < es.len()
        invariant
            j <= es@.len(),
            em == entries_model(es@),
            key_index(em, k@, 0) == key_index(em, k@, j as int),
        decreases es@.len() - j,
    {
        if es[j].key == *k {
            return Some(j);
        }
        j = j + 1;
    }
    None
}

/// An empty table of the given kind.
fn new_table(kind: TableKind) -> (t: Table)
    ensures
        table_model(t) == empty_table(kind),
{
    let t = Table { kind, entries: Vec::new() };
    proof {
        lemma_table_model(t);
        assert(entries_model(t.entries@) =~= Seq::<(Seq<char>, ItemModel)>::empty());
    }
    t
}

/// Applies `a` at key `k` of `t`.
fn apply(t: &mut Table, k: &String, a: Action) -> (r: Result<(), ErrorKind>)
    ensures
        match spec_apply(table_model(*old(t)), k@, action_model(a)) {
            Ok(m) => r is Ok && table_model(*final(t)) == m,
            Err(e) => r == Err::<(), ErrorKind>(e),
        },
{
    proof {
        lemma_table_model(*t);
        lemma_key_index(entries_model(t.entries@), k@, 0);
    }
    let ghost t0 = table_model(*t);
    let ghost es0 = t.entries@;
    match find_entry(&t.entries, k) {
        None => {
            let item = match a {
                Action::OpenTable => Item::Table(new_table(TableKind::Explicit)),
                Action::OpenArray => {
                    let mut ts: Vec<Table> = Vec::new();
                    ts.push(new_table(TableKind::Explicit));
                    proof {
                        lemma_array_of_tables_model(ts);
                        assert(tables_model(ts@) =~= seq![empty_table(TableKind::Explicit)]);
                    }
                    Item::ArrayOfTables(ts)
                },
                Action::SetValue(v) => Item::Value(v),
            };
            let e = Entry { key: k.clone(), item };
            proof {
                lemma_entries_push(t.entries@, e);
            }
            let ghost em = (e.key@, item_model(e.item));
            t.entries.push(e);
            proof {
                lemma_table_model(*t);
                assert(table_model(*t) == with_entry(t0, k@, em.1));
            }
            Ok(())
        },
        Some(j) => {
            match a {
                Action::SetValue(_) => {
                    return Err(ErrorKind::DuplicateKey);
                },
                _ => {},
            }
            let e = t.entries.remove(j);
            assert(entries_model(es0)[j as int] == (e.key@, item_model(e.item)));
            assert(e.key@ == k@);
            let Entry { key, item } = e;
            let new_item = match item {
                Item::Table(c) => {
                    match a {
                        Action::OpenTable => {},
                        _ => {
                            return Err(ErrorKind::TableArrayConflict);
                        },
                    }
                    if c.kind != TableKind::Implicit {
                        return Err(ErrorKind::DuplicateTable);
                    }
                    let c2 = Table { kind: TableKind::Explicit, entries: c.entries };
                    proof {
                        lemma_table_model(c);
                        lemma_table_model(c2);
                    }
                    Item::Table(c2)
                },
                Item::ArrayOfTables(ts) => {
                    match a {
                        Action::OpenArray => {},
                        _ => {
                            return Err(ErrorKind::TableArrayConflict);
                        },
                    }
                    let ghost ts0 = ts@;
                    proof {
                        lemma_array_of_tables_model(ts);
                    }
                    let mut ts = ts;
                    ts.push(new_table(TableKind::Explicit));
                    proof {
                        lemma_array_of_tables_model(ts);
                        assert(tables_model(ts@) =~= tables_model(ts0).push(empty_table(TableKind::Explicit)));
                        assert(item_model(Item::ArrayOfTables(ts)) == ItemModel::ArrayOfTables(tables_model(ts0).push(empty_table(TableKind::Explicit))));
                    }
                    Item::ArrayOfTables(ts)
                },
                Item::Value(_) => {
                    return Err(ErrorKind::NotATable);
                },
            };
            let ne = Entry { key, item: new_item };
            proof {
                lemma_entries_replace(es0, j as int, ne);
            }
            let ghost nm = (ne.key@, item_model(ne.item));
            t.entries.insert(j, ne);
            proof {
                lemma_table_model(*t);
                assert(table_model(*t) == with_entry_at(t0, j as int, k@, nm.1));
            }
            Ok(())
        },
    }
}

/// Follows `path[idx..]` from `t` and applies `a` at its last segment.
fn descend(t: &mut Table, path: &Vec<String>, idx: usize, through: usize, a: Action) -> (r: Result<(), ErrorKind>)
    requires
        idx < path@.len(),
    ensures
        match spec_descend(
            table_model(*old(t)),
            key_model(path@).subrange(idx as int, path@.len() as int),
            through as nat,
            action_model(a),
        ) {
            Ok(m) => r is Ok && table_model(*final(t)) == m,
            Err(e) => r == Err::<(), ErrorKind>(e),
        },
    decreases path@.len() - idx,
{
    let ghost p = key_model(path@).subrange(idx as int, path@.len() as int);
    let n = path.len();
    if idx + 1 == n {
        assert(p.len() == 1 && p[0] == path@[idx as int]@);
        return apply(t, &path[idx], a);
    }
    let ghost rest = key_model(path@).subrange(idx + 1, path@.len() as int);
    assert(p.drop_first() =~= rest);
    assert(p[0] == path@[idx as int]@);
    let next: usize = if through > 0 {
        through - 1
    } else {
        0
    };
    let k = &path[idx];
    proof {
        lemma_table_model(*t);
        lemma_key_index(entries_model(t.entries@), k@, 0);
    }
    let ghost t0 = table_model(*t);
    let ghost es0 = t.entries@;
    match find_entry(&t.entries, k) {
        None => {
            let mut c = new_table(TableKind::Implicit);
            let r = descend(&mut c, path, idx + 1, next, a);
            if r.is_err() {
                return r;
            }
            let e = Entry { key: k.clone(), item: Item::Table(c) };
            let ghost em = (e.key@, item_model(e.item));
            proof {
                lemma_entries_push(t.entries@, e);
            }
            t.entries.push(e);
            proof {
                lemma_table_model(*t);
                assert(table_model(*t) == with_entry(t0, k@, em.1));
            }
            Ok(())
        },
        Some(j) => {
            let e = t.entries.remove(j);
            assert(entries_model(es0)[j as int] == (e.key@, item_model(e.item)));
            let Entry { key, item } = e;
            let new_item = match item {
                Item::Table(c) => {
                    let mut c = c;
                    let r = descend(&mut c, path, idx + 1, next, a);
                    if r.is_err() {
                        return r;
                    }
                    Item::Table(c)
                },
                Item::ArrayOfTables(ts) => {
                    if !(through > 0 && ts.len() > 0) {
                        proof {
                            lemma_array_of_tables_model(ts);
                        }
                        return Err(ErrorKind::TableArrayConflict);
                    }
                    let ghost ts0 = ts@;
                    proof {
                        lemma_array_of_tables_model(ts);
                    }
                    let mut ts = ts;
                    let mut last = ts.pop().unwrap();
                    assert(ts0.last() == last);
                    let r = descend(&mut last, path, idx + 1, next, a);
                    if r.is_err() {
                        return r;
                    }
                    let ghost lm = table_model(last);
                    ts.push(last);
                    proof {
                        lemma_array_of_tables_model(ts);
                        assert(tables_model(ts@) =~= tables_model(ts0).update(ts0.len() - 1, lm));
                    }
                    Item::ArrayOfTables(ts)
                },
                Item::Value(_) => {
                    return Err(ErrorKind::NotATable);
                },
            };
            let ne = Entry { key, item: new_item };
            let ghost nm = (ne.key@, item_model(ne.item));
            proof {
                lemma_entries_replace(es0, j as int, ne);
            }
            t.entries.insert(j, ne);
            proof {
                lemma_table_model(*t);
                assert(table_model(*t) == with_entry_at(t0, j as int, k@, nm.1));
            }
            Ok(())
        },
    }
}

proof fn lemma_keys_push(ks: Seq<String>, k: String)
    ensures
        key_model(ks.push(k)) == key_model(ks).push(k@),
{
    assert(key_model(ks.push(k)) =~= key_model(ks).push(k@));
}

/// The keys of `a` followed by those of `b`.
fn concat_keys(a: &Vec<String>, b: &Vec<String>) -> (r: Vec<String>)
    ensures
        key_model(r@) == key_model(a@) + key_model(b@),
{
    let mut r: Vec<String> = Vec::new();
    let mut i: usize = 0;
    while i < a.len()
        invariant
            i <= a@.len(),
            key_model(r@) == key_model(a@).subrange(0, i as int),
        decreases a@.len() - i,
    {
        let ghost old_r = r@;
        r.push(a[i].clone());
        proof {
            lemma_keys_push(old_r, a@[i as int]);
            assert(key_model(a@).subrange(0, i + 1) =~= key_model(a@).subrange(0, i as int).push(a@[i as int]@));
        }
        i = i + 1;
    }
    let mut j: usize = 0;
    while j < b.len()
        invariant
            i == a@.len(),
            j <= b@.len(),
            key_model(r@) == key_model(a@) + key_model(b@).subrange(0, j as int),
        decreases b@.len() - j,
    {
        let ghost old_r = r@;
        r.push(b[j].clone());
        proof {
            lemma_keys_push(old_r, b@[j as int]);
            assert(key_model(a@) + key_model(b@).subrange(0, j + 1) =~= (key_model(a@) + key_model(b@).subrange(0, j as int)).push(b@[j as int]@));
        }
        j = j + 1;
    }
    assert(key_model(b@).subrange(0, j as int) =~= key_model(b@));
    r
}

proof fn lemma_whole_path(path: Seq<String>)
    ensures
        key_model(path).subrange(0, path.len() as int) == key_model(path),
{
    assert(key_model(path).subrange(0, path.len() as int) =~= key_model(path));
}

/// Merges the statements of a document, in order, into one tree.
pub fn assemble(lines: Vec<Line>) -> (r: Result<Table, ParseError>)
    ensures
        match (r, spec_assemble(lines_model(lines@))) {
            (Ok(t), Ok(m)) => table_model(t) == m,
            (Err(x), Err(y)) => x == y,
            _ => false,
        },
        r matches Ok(t) ==> table_wf(table_model(t)),
{
    proof {
        lemma_assemble_wf(lines_model(lines@));
    }
    let ghost lm = lines_model(lines@);
    let mut root = new_table(TableKind::Root);
    let mut current: Vec<String> = Vec::new();
    assert(key_model(current@) =~= Seq::<Seq<char>>::empty());
    for line in it: lines.into_iter()
        invariant
            it.seq() == lines@,
            lm == lines_model(lines@),
            spec_assemble(lm) == spec_fold(table_model(root), key_model(current@), lm, it.index() as int),
    {
        let ghost i = it.index();
        assert(lm[i as int] == (statement_model(line.statement), line.offset as int));
        let Line { statement, offset } = line;
        match statement {
            Statement::Table(path) => {
                if path.len() == 0 {
                    return Err(ParseError::new(ErrorKind::InvalidKey, offset));
                }
                proof {
                    lemma_whole_path(path@);
                }
                let n = path.len();
                match descend(&mut root, &path, 0, n, Action::OpenTable) {
                    Err(k) => {
                        return Err(ParseError::new(k, offset));
                    },
                    Ok(()) => {},
                }
                current = path;
            },
            Statement::ArrayTable(path) => {
                if path.len() == 0 {
                    return Err(ParseError::new(ErrorKind::InvalidKey, offset));
                }
                proof {
                    lemma_whole_path(path@);
                }
                let n = path.len();
                match descend(&mut root, &path, 0, n, Action::OpenArray) {
                    Err(k) => {
                        return Err(ParseError::new(k, offset));
                    },
                    Ok(()) => {},
                }
                current = path;
            },
            Statement::Pair(kv) => {
                let KeyValue { key, value } = kv;
                let full = concat_keys(&current, &key);
                if full.len() == 0 {
                    return Err(ParseError::new(ErrorKind::InvalidKey, offset));
                }
                proof {
                    lemma_whole_path(full@);
                }
                match descend(&mut root, &full, 0, current.len(), Action::SetValue(value)) {
                    Err(k) => {
                        return Err(ParseError::new(k, offset));
                    },
                    Ok(()) => {},
                }
            },
        }
    }
    Ok(root)
}

/// Every table of the tree has distinct keys, and every array of tables has at least one table.
pub open spec fn table_wf(t: TableModel) -> bool
    decreases t,
{
    &&& forall|a: int, b: int| 0 <= a < b < t.entries.len() ==> #[trigger] t.entries[a].0 != #[trigger] t.entries[b].0
    &&& forall|j: int| 0 <= j < t.entries.len() ==> item_wf(#[trigger] t.entries[j].1)
}

pub open spec fn item_wf(i: ItemModel) -> bool
    decreases i,
{
    match i {
        ItemModel::Value(_) => true,
        ItemModel::Table(c) => table_wf(c),
        ItemModel::ArrayOfTables(ts) => ts.len() > 0 && forall|m: int| 0 <= m < ts.len() ==> table_wf(#[trigger] ts[m]),
    }
}

proof fn lemma_with_entry_wf(t: TableModel, k: Seq<char>, item: ItemModel)
    requires
        table_wf(t),
        item_wf(item),
        key_index(t.entries, k, 0) == -1,
    ensures
        table_wf(with_entry(t, k, item)),
{
    lemma_key_index(t.entries, k, 0);
    let m = with_entry(t, k, item);
    assert(forall|j: int| 0 <= j < t.entries.len() ==> m.entries[j] == t.entries[j]);
    assert(m.entries[t.entries.len() as int] == (k, item));
}

proof fn lemma_with_entry_at_wf(t: TableModel, j: int, k: Seq<char>, item: ItemModel)
    requires
        table_wf(t),
        item_wf(item),
        0 <= j < t.entries.len(),
        t.entries[j].0 == k,
    ensures
        table_wf(with_entry_at(t, j, k, item)),
{
    let m = with_entry_at(t, j, k, item);
    assert(forall|x: int| 0 <= x < t.entries.len() && x != j ==> m.entries[x] == t.entries[x]);
    assert(forall|x: int| 0 <= x < t.entries.len() ==> m.entries[x].0 == t.entries[x].0);
}

proof fn lemma_apply_wf(t: TableModel, k: Seq<char>, a: ActionModel)
    requires
        table_wf(t),
    ensures
        spec_apply(t, k, a) matches Ok(m) ==> table_wf(m),
{
    lemma_key_index(t.entries, k, 0);
    let j = key_index(t.entries, k, 0);
    let e = empty_table(TableKind::Explicit);
    assert(table_wf(e));
    match a {
        ActionModel::OpenTable => if j < 0 {
            lemma_with_entry_wf(t, k, ItemModel::Table(e));
        } else {
            assert(item_wf(t.entries[j].1));
            if let ItemModel::Table(c) = t.entries[j].1 {
                let c2 = TableModel { kind: TableKind::Explicit, entries: c.entries };
                assert(table_wf(c2));
                lemma_with_entry_at_wf(t, j, k, ItemModel::Table(c2));
            }
        },
        ActionModel::OpenArray => if j < 0 {
            assert(item_wf(ItemModel::ArrayOfTables(seq![e])));
            lemma_with_entry_wf(t, k, ItemModel::ArrayOfTables(seq![e]));
        } else {
            assert(item_wf(t.entries[j].1));
            if let ItemModel::ArrayOfTables(ts) = t.entries[j].1 {
                let ts2 = ts.push(e);
                assert(forall|m: int| 0 <= m < ts.len() ==> ts2[m] == ts[m]);
                assert(item_wf(ItemModel::ArrayOfTables(ts2)));
                lemma_with_entry_at_wf(t, j, k, ItemModel::ArrayOfTables(ts2));
            }
        },
        ActionModel::SetValue(v) => if j < 0 {
            lemma_with_entry_wf(t, k, ItemModel::Value(v));
        },
    }
}

proof fn lemma_descend_wf(t: TableModel, path: Seq<Seq<char>>, through: nat, a: ActionModel)
    requires
        table_wf(t),
    ensures
        spec_descend(t, path, through, a) matches Ok(m) ==> table_wf(m),
    decreases path.len(),
{
    if path.len() == 1 {
        lemma_apply_wf(t, path[0], a);
    } else if path.len() > 1 {
        let k = path[0];
        let rest = path.drop_first();
        let next: nat = if through > 0 {
            (through - 1) as nat
        } else {
            0
        };
        lemma_key_index(t.entries, k, 0);
        let j = key_index(t.entries, k, 0);
        if j < 0 {
            let c0 = empty_table(TableKind::Implicit);
            assert(table_wf(c0));
            lemma_descend_wf(c0, rest, next, a);
            if let Ok(c) = spec_descend(c0, rest, next, a) {
                lemma_with_entry_wf(t, k, ItemModel::Table(c));
            }
        } else {
            assert(item_wf(t.entries[j].1));
            match t.entries[j].1 {
                ItemModel::Table(c) => {
                    lemma_descend_wf(c, rest, next, a);
                    if let Ok(c2) = spec_descend(c, rest, next, a) {
                        lemma_with_entry_at_wf(t, j, k, ItemModel::Table(c2));
                    }
                },
                ItemModel::ArrayOfTables(ts) => {
                    if through > 0 && ts.len() > 0 {
                        assert(table_wf(ts[ts.len() - 1]));
                        lemma_descend_wf(ts.last(), rest, next, a);
                        if let Ok(c2) = spec_descend(ts.last(), rest, next, a) {
                            let ts2 = ts.update(ts.len() - 1, c2);
                            assert(forall|m: int| 0 <= m < ts.len() - 1 ==> ts2[m] == ts[m]);
                            assert(item_wf(ItemModel::ArrayOfTables(ts2)));
                            lemma_with_entry_at_wf(t, j, k, ItemModel::ArrayOfTables(ts2));
                        }
                    }
                },
                ItemModel::Value(_) => {},
            }
        }
    }
}

proof fn lemma_fold_wf(root: TableModel, current: Seq<Seq<char>>, lines: Seq<(StatementModel, int)>, i: int)
    requires
        table_wf(root),
    ensures
        spec_fold(root, current, lines, i) matches Ok(m) ==> table_wf(m),
    decreases lines.len() - i,
{
    if 0 <= i < lines.len() {
        match lines[i].0 {
            StatementModel::Table(path) => {
                lemma_descend_wf(root, path, path.len(), ActionModel::OpenTable);
                if let Ok(r) = spec_descend(root, path, path.len(), ActionModel::OpenTable) {
                    lemma_fold_wf(r, path, lines, i + 1);
                }
            },
            StatementModel::ArrayTable(path) => {
                lemma_descend_wf(root, path, path.len(), ActionModel::OpenArray);
                if let Ok(r) = spec_descend(root, path, path.len(), ActionModel::OpenArray) {
                    lemma_fold_wf(r, path, lines, i + 1);
                }
            },
            StatementModel::Pair(key, v) => {
                lemma_descend_wf(root, current + key, current.len(), ActionModel::SetValue(v));
                if let Ok(r) = spec_descend(root, current + key, current.len(), ActionModel::SetValue(v)) {
                    lemma_fold_wf(r, current, lines, i + 1);
                }
            },
        }
    }
}

/// Whatever the statements, a document that assembles is well formed: no table holds a key
/// twice, and no array of tables is empty.
pub proof fn lemma_assemble_wf(lines: Seq<(StatementModel, int)>)
    ensures
        spec_assemble(lines) matches Ok(m) ==> table_wf(m),
{
    assert(table_wf(empty_table(TableKind::Root)));
    lemma_fold_wf(empty_table(TableKind::Root), Seq::empty(), lines, 0);
}

/// A parsed and validated document: its root table.
#[derive(Debug)]
pub struct Document {
    pub root: Table,
}

/// The document that a text describes, or the first error in it.
pub open spec fn spec_parse(s: Seq<char>) -> Result<TableModel, ParseError> {
    match spec_statements(s, 0) {
        Ok(lines) => spec_assemble(lines),
        Err(x) => Err(x),
    }
}

/// Parses a whole text into a validated document.
pub fn parse(text: &str) -> (r: Result<Document, ParseError>)
    ensures
        match (r, spec_parse(text@)) {
            (Ok(d), Ok(m)) => table_model(d.root) == m,
            (Err(x), Err(y)) => x == y,
            _ => false,
        },
        r matches Ok(d) ==> table_wf(table_model(d.root)),
{
    let s = to_chars(text);
    let lines = statements(&s)?;
    let root = assemble(lines)?;
    Ok(Document { root })
}

/// What `path` leads to from `t`, through tables only.
pub open spec fn spec_find(t: TableModel, path: Seq<Seq<char>>) -> Option<ItemModel>
    decreases path.len(),
{
    if path.len() == 0 {
        None
    } else {
        let j = key_index(t.entries, path[0], 0);
        if j < 0 {
            None
        } else if path.len() == 1 {
            Some(t.entries[j].1)
        } else {
            match t.entries[j].1 {
                ItemModel::Table(c) => spec_find(c, path.drop_first()),
                _ => None,
            }
        }
    }
}

/// Finds what `path[idx..]` leads to from `t`.
fn find<'a>(t: &'a Table, path: &Vec<String>, idx: usize) -> (r: Option<&'a Item>)
    requires
        idx <= path@.len(),
    ensures
        match (r, spec_find(table_model(*t), key_model(path@).subrange(idx as int, path@.len() as int))) {
            (Some(it), Some(m)) => item_model(*it) == m,
            (None, None) => true,
            _ => false,
        },
    decreases path@.len() - idx,
{
    let ghost p = key_model(path@).subrange(idx as int, path@.len() as int);
    if idx >= path.len() {
        return None;
    }
    proof {
        lemma_table_model(*t);
        lemma_key_index(entries_model(t.entries@), path@[idx as int]@, 0);
        assert(p[0] == path@[idx as int]@);
        assert(p.drop_first() =~= key_model(path@).subrange(idx + 1, path@.len() as int));
    }
    match find_entry(&t.entries, &path[idx]) {
        None => None,
        Some(j) => {
            let e = &t.entries[j];
            assert(entries_model(t.entries@)[j as int] == (e.key@, item_model(e.item)));
            if idx + 1 == path.len() {
                Some(&e.item)
            } else {
                match &e.item {
                    Item::Table(c) => find(c, path, idx + 1),
                    _ => None,
                }
            }
        },
    }
}

impl Table {
    /// The item at a direct key of this table.
    pub fn get(&self, key: &str) -> (r: Option<&Item>)
        ensures
            match (r, spec_find(table_model(*self), seq![key@])) {
                (Some(it), Some(m)) => item_model(*it) == m,
                (None, None) => true,
                _ => false,
            },
    {
        let mut path: Vec<String> = Vec::new();
        path.push(String::from_str(key));
        assert(key_model(path@).subrange(0, 1) =~= seq![key@]);
        find(self, &path, 0)
    }

    /// The keys of this table, in the order they were first given.
    pub fn keys(&self) -> (r: Vec<String>)
        ensures
            r@.len() == self.entries@.len(),
            forall|j: int| 0 <= j < r@.len() ==> #[trigger] r@[j]@ == self.entries@[j].key@,
    {
        let mut r: Vec<String> = Vec::new();
        let mut j: usize = 0;
        while j < self.entries.len()
            invariant
                j <= self.entries@.len(),
                r@.len() == j,
                forall|m: int| 0 <= m < j ==> #[trigger] r@[m]@ == self.entries@[m].key@,
            decreases self.entries@.len() - j,
        {
            r.push(self.entries[j].key.clone());
            j = j + 1;
        }
        r
    }
}

impl Document {
    /// What a dotted key such as `a.b.c` leads to in the document, through tables; `None`
    /// where the text is not a key or leads nowhere.
    pub fn get(&self, path: &str) -> (r: Option<&Item>)
        ensures
            match spec_key(path@, 0) {
                Ok(Some((k, e))) if e == path@.len() => match (r, spec_find(table_model(self.root), k)) {
                    (Some(it), Some(m)) => item_model(*it) == m,
                    (None, None) => true,
                    _ => false,
                },
                _ => r is None,
            },
    {
        let s = to_chars(path);
        match key(&s, 0) {
            Ok(Some((k, e))) => {
                if e == s.len() {
                    proof {
                        lemma_whole_path(k@);
                    }
                    find(&self.root, &k, 0)
                } else {
                    None
                }
            },
            _ => None,
        }
    }
}

impl Item {
    pub fn as_value(&self) -> (r: Option<&Value>)
        ensures
            r == match self {
                Item::Value(v) => Some(v),
                _ => None::<&Value>,
            },
    {
        match self {
            Item::Value(v) => Some(v),
            _ => None,
        }
    }

    pub fn as_table(&self) -> (r: Option<&Table>)
        ensures
            r == match self {
                Item::Table(t) => Some(t),
                _ => None::<&Table>,
            },
    {
        match self {
            Item::Table(t) => Some(t),
            _ => None,
        }
    }

    pub fn as_array_of_tables(&self) -> (r: Option<&Vec<Table>>)
        ensures
            r == match self {
                Item::ArrayOfTables(ts) => Some(ts),
                _ => None::<&Vec<Table>>,
            },
    {
        match self {
            Item::ArrayOfTables(ts) => Some(ts),
            _ => None,
        }
    }
}

} // verus!
