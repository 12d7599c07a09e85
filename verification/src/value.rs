//! The values that evaluation produces, and their text.

use vstd::prelude::*;
use vstd::string::StringExecFns;
use crate::float::{
    ask_text, consistent, lemma_explains_prefix, Answers, FloatCall, FloatModel, FloatOps,
};
use crate::text::{
    chars_equal, chars_less, chars_of, indent_text, int_text, push_int, text_less, write_indent,
};

verus! {

/// A value: what an expression evaluates to.
///
/// A float is held as the bits of an IEEE 754 binary64 number.  A mapping
/// holds its entries in the strictly ascending order of their keys, so that
/// no key comes twice: [`Value::wf`] says so of a value and of every value
/// in it, and it holds of every value that an evaluation gives.
#[derive(Debug, PartialEq)]
pub enum Value {
    Null,
    String(String),
    Integer(i64),
    Float(u64),
    Boolean(bool),
    List(Vec<Value>),
    Mapping(Vec<(String, Value)>),
}

/// The mathematical value that a [`Value`] stands for.
pub enum ValueView {
    Null,
    String(Seq<char>),
    Integer(i64),
    Float(u64),
    Boolean(bool),
    List(Seq<ValueView>),
    Mapping(Seq<(Seq<char>, ValueView)>),
}

impl Value {
    /// The mathematical value that this value stands for.
    pub open spec fn model(self) -> ValueView
        decreases self,
    {
        match self {
            Value::Null => ValueView::Null,
            Value::String(s) => ValueView::String(s@),
            Value::Integer(i) => ValueView::Integer(i),
            Value::Float(bits) => ValueView::Float(bits),
            Value::Boolean(b) => ValueView::Boolean(b),
            Value::List(v) => ValueView::List(
                Seq::new(
                    v@.len(),
                    |i: int|
                        if 0 <= i < v@.len() {
                            v@[i].model()
                        } else {
                            ValueView::Null
                        },
                ),
            ),
            Value::Mapping(m) => ValueView::Mapping(
                Seq::new(
                    m@.len(),
                    |i: int|
                        if 0 <= i < m@.len() {
                            (m@[i].0@, m@[i].1.model())
                        } else {
                            (Seq::empty(), ValueView::Null)
                        },
                ),
            ),
        }
    }
}

impl View for Value {
    type V = ValueView;

    open spec fn view(&self) -> ValueView {
        self.model()
    }
}

/// The values that a sequence of [`Value`]s stands for.
pub open spec fn list_view(items: Seq<Value>) -> Seq<ValueView> {
    Seq::new(items.len(), |i: int| items[i]@)
}

/// The entries that a sequence of keyed [`Value`]s stands for.
pub open spec fn entries_view(entries: Seq<(String, Value)>) -> Seq<(Seq<char>, ValueView)> {
    Seq::new(entries.len(), |i: int| (entries[i].0@, entries[i].1@))
}

/// The view of a list is the list of the views of its items.
pub proof fn lemma_list_view(items: Vec<Value>)
    ensures
        Value::List(items)@ == ValueView::List(list_view(items@)),
{
    assert(Value::List(items)@->List_0 =~= list_view(items@));
}

/// The view of a mapping is the sequence of the views of its entries.
pub proof fn lemma_mapping_view(entries: Vec<(String, Value)>)
    ensures
        Value::Mapping(entries)@ == ValueView::Mapping(entries_view(entries@)),
{
    assert(Value::Mapping(entries)@->Mapping_0 =~= entries_view(entries@));
}

impl Clone for Value {
    fn clone(&self) -> (r: Self)
        ensures
            r@ == self@,
    {
        self.duplicate()
    }
}

impl Value {
    /// A copy of this value.
    pub fn duplicate(&self) -> (r: Self)
        ensures
            r@ == self@,
        decreases self,
    {
        match self {
            Value::Null => Value::Null,
            Value::String(s) => Value::String(s.clone()),
            Value::Integer(i) => Value::Integer(*i),
            Value::Float(bits) => Value::Float(*bits),
            Value::Boolean(b) => Value::Boolean(*b),
            Value::List(v) => {
                let mut out: Vec<Value> = Vec::new();
                let mut i: usize = 0;
                while i < v.len()
                    invariant
                        *self == Value::List(*v),
                        i <= v.len(),
                        out.len() == i,
                        forall|j: int| 0 <= j < i ==> out@[j]@ == v@[j]@,
                    decreases v.len() - i,
                {
                    assert(decreases_to!(self => self->List_0[i as int]));
                    let item = v[i].duplicate();
                    out.push(item);
                    i += 1;
                }
                proof {
                    lemma_list_view(out);
                    lemma_list_view(*v);
                    assert(list_view(out@) =~= list_view(v@));
                }
                Value::List(out)
            },
            Value::Mapping(m) => {
                let mut out: Vec<(String, Value)> = Vec::new();
                let mut i: usize = 0;
                while i < m.len()
                    invariant
                        *self == Value::Mapping(*m),
                        i <= m.len(),
                        out.len() == i,
                        forall|j: int|
                            0 <= j < i ==> out@[j].0@ == m@[j].0@ && out@[j].1@ == m@[j].1@,
                    decreases m.len() - i,
                {
                    let key = m[i].0.clone();
                    assert(decreases_to!(self => self->Mapping_0[i as int].1));
                    let item = m[i].1.duplicate();
                    out.push((key, item));
                    i += 1;
                }
                proof {
                    lemma_mapping_view(out);
                    lemma_mapping_view(*m);
                    assert(entries_view(out@) =~= entries_view(m@));
                }
                Value::Mapping(out)
            },
        }
    }
}

/// The index of the first entry at or after `from` whose key is `key`, or the
/// number of entries where there is none.
pub open spec fn position_of<V>(entries: Seq<(Seq<char>, V)>, key: Seq<char>, from: int) -> int
    decreases entries.len() - from,
{
    if from < 0 || from >= entries.len() {
        entries.len() as int
    } else if entries[from].0 == key {
        from
    } else {
        position_of(entries, key, from + 1)
    }
}

/// The value that `entries` holds for `key`: null where it holds none.
pub open spec fn entry_or_null(entries: Seq<(Seq<char>, ValueView)>, key: Seq<char>) -> ValueView {
    let i = position_of(entries, key, 0);
    if i < entries.len() {
        entries[i].1
    } else {
        ValueView::Null
    }
}

/// The index of the first entry at or after `from` whose key does not come
/// before `key`, or the number of entries where every key does.
pub open spec fn slot_of<V>(entries: Seq<(Seq<char>, V)>, key: Seq<char>, from: int) -> int
    decreases entries.len() - from,
{
    if from < 0 || from >= entries.len() {
        entries.len() as int
    } else if !text_less(entries[from].0, key) {
        from
    } else {
        slot_of(entries, key, from + 1)
    }
}

/// The entries after `key` has been given `value`: the entry of `key` is
/// replaced where there is one at the key's place, and a new entry is put
/// before the first key that comes after `key` otherwise.
pub open spec fn with_entry<V>(entries: Seq<(Seq<char>, V)>, key: Seq<char>, value: V) -> Seq<
    (Seq<char>, V),
> {
    let i = slot_of(entries, key, 0);
    if i < entries.len() && entries[i].0 == key {
        entries.update(i, (key, value))
    } else {
        entries.insert(i, (key, value))
    }
}

/// Whether the keys of `entries` come in strictly ascending order.
pub open spec fn keys_ascend<V>(entries: Seq<(Seq<char>, V)>) -> bool {
    forall|i: int, j: int|
        0 <= i < j < entries.len() ==> text_less(#[trigger] entries[i].0, #[trigger] entries[j].0)
}

/// Whether a value is well-formed: every mapping in it has its keys in
/// strictly ascending order, so that no key comes twice.
pub open spec fn well_keyed(v: ValueView) -> bool
    decreases v,
{
    match v {
        ValueView::List(items) => forall|i: int|
            0 <= i < items.len() ==> well_keyed(#[trigger] items[i]),
        ValueView::Mapping(entries) => keys_ascend(entries) && forall|i: int|
            0 <= i < entries.len() ==> well_keyed((#[trigger] entries[i]).1),
        _ => true,
    }
}

impl Value {
    /// Whether this value is well-formed, as [`well_keyed`] says.
    pub open spec fn wf(&self) -> bool {
        well_keyed(self@)
    }
}

/// A copy of the value that `entries` holds for `key`, or null.
pub fn mapping_get(entries: &Vec<(String, Value)>, key: &str) -> (r: Value)
    ensures
        r@ == entry_or_null(entries_view(entries@), key@),
{
    let wanted = chars_of(key);
    let ghost view = entries_view(entries@);
    let mut i: usize = 0;
    while i < entries.len()
        invariant
            i <= entries.len(),
            view == entries_view(entries@),
            wanted@ == key@,
            position_of(view, key@, 0) == position_of(view, key@, i as int),
        decreases entries.len() - i,
    {
        let have = chars_of(entries[i].0.as_str());
        if chars_equal(&have, &wanted) {
            return entries[i].1.clone();
        }
        i += 1;
    }
    Value::Null
}

/// Gives `key` the value `value` in `entries`, as [`with_entry`] says.
pub fn mapping_insert(entries: &mut Vec<(String, Value)>, key: String, value: Value)
    ensures
        entries_view(final(entries)@) == with_entry(entries_view(old(entries)@), key@, value@),
{
    let wanted = chars_of(key.as_str());
    let ghost view = entries_view(entries@);
    let mut i: usize = 0;
    while i < entries.len()
        invariant
            i <= entries.len(),
            entries@ == old(entries)@,
            view == entries_view(entries@),
            wanted@ == key@,
            slot_of(view, key@, 0) == slot_of(view, key@, i as int),
        decreases entries.len() - i,
    {
        let have = chars_of(entries[i].0.as_str());
        if !chars_less(&have, &wanted) {
            if chars_equal(&have, &wanted) {
                entries.set(i, (key, value));
                assert(entries_view(entries@) =~= view.update(i as int, (key@, value@)));
            } else {
                entries.insert(i, (key, value));
                assert(entries_view(entries@) =~= view.insert(i as int, (key@, value@)));
            }
            return ;
        }
        i += 1;
    }
    entries.push((key, value));
    assert(entries_view(entries@) =~= view.insert(i as int, (key@, value@)));
}

/// The level one deeper than `level`; the deepest level is its own successor.
pub open spec fn deeper(level: usize) -> usize {
    if level < usize::MAX {
        (level + 1) as usize
    } else {
        level
    }
}

/// Computes [`deeper`].
pub fn next_level(level: usize) -> (r: usize)
    ensures
        r == deeper(level),
{
    if level < usize::MAX {
        level + 1
    } else {
        level
    }
}

/// What opens a bracketed group whose items stand at `level`.
pub open spec fn group_open(pretty: bool, level: usize) -> Seq<char> {
    if pretty {
        seq!['\n'] + indent_text(level as nat)
    } else {
        Seq::empty()
    }
}

/// What stands between two items of a group at `level`.
pub open spec fn group_separator(pretty: bool, level: usize) -> Seq<char> {
    if pretty {
        seq![',', '\n'] + indent_text(level as nat)
    } else {
        seq![',', ' ']
    }
}

/// The text of a value.  In the pretty form every item of a list or mapping
/// stands on a line of its own, one level deeper than the brackets.
pub open spec fn value_text(v: ValueView, pretty: bool, level: usize, fm: FloatModel) -> Seq<char>
    decreases v, 0nat,
{
    match v {
        ValueView::Null => seq!['n', 'u', 'l', 'l'],
        ValueView::String(s) => seq!['"'] + s + seq!['"'],
        ValueView::Integer(i) => int_text(i as int),
        ValueView::Float(bits) => (fm.text)(bits),
        ValueView::Boolean(b) => if b {
            seq!['t', 'r', 'u', 'e']
        } else {
            seq!['f', 'a', 'l', 's', 'e']
        },
        ValueView::List(items) => if items.len() == 0 {
            seq!['[', ']']
        } else {
            seq!['['] + group_open(pretty, deeper(level)) + items_text(
                items,
                items.len(),
                pretty,
                deeper(level),
                fm,
            ) + group_open(pretty, level) + seq![']']
        },
        ValueView::Mapping(entries) => if entries.len() == 0 {
            seq!['[', ']']
        } else {
            seq!['['] + group_open(pretty, deeper(level)) + entries_text(
                entries,
                entries.len(),
                pretty,
                deeper(level),
                fm,
            ) + group_open(pretty, level) + seq![']']
        },
    }
}

/// The text of the first `count` items of a list, separated.
pub open spec fn items_text(
    items: Seq<ValueView>,
    count: nat,
    pretty: bool,
    level: usize,
    fm: FloatModel,
) -> Seq<char>
    decreases items, count,
{
    if count == 0 || count > items.len() {
        Seq::empty()
    } else {
        items_text(items, (count - 1) as nat, pretty, level, fm) + (if count > 1 {
            group_separator(pretty, level)
        } else {
            Seq::empty()
        }) + value_text(items[count - 1], pretty, level, fm)
    }
}

/// The text of one entry of a mapping: its key in quotes, a colon, a blank,
/// and its value.
pub open spec fn keyed_text(entry: (Seq<char>, ValueView), pretty: bool, level: usize, fm: FloatModel) -> Seq<
    char,
>
    decreases entry, 0nat,
{
    seq!['"'] + entry.0 + seq!['"', ':', ' '] + value_text(entry.1, pretty, level, fm)
}

/// The text of the first `count` entries of a mapping, separated.
pub open spec fn entries_text(
    entries: Seq<(Seq<char>, ValueView)>,
    count: nat,
    pretty: bool,
    level: usize,
    fm: FloatModel,
) -> Seq<char>
    decreases entries, count,
{
    if count == 0 || count > entries.len() {
        Seq::empty()
    } else {
        entries_text(entries, (count - 1) as nat, pretty, level, fm) + (if count > 1 {
            group_separator(pretty, level)
        } else {
            Seq::empty()
        }) + keyed_text(entries[count - 1], pretty, level, fm)
    }
}

/// Appends what opens a group whose items stand at `level`.
pub fn write_group_open(writer: &mut String, pretty: bool, level: usize)
    ensures
        final(writer)@ == old(writer)@ + group_open(pretty, level),
{
    if pretty {
        writer.push('\n');
        write_indent(writer, level);
        assert(writer@ =~= old(writer)@ + group_open(pretty, level));
    } else {
        assert(writer@ =~= old(writer)@ + group_open(pretty, level));
    }
}

/// Appends what stands between two items of a group at `level`.
pub fn write_group_separator(writer: &mut String, pretty: bool, level: usize)
    ensures
        final(writer)@ == old(writer)@ + group_separator(pretty, level),
{
    writer.push(',');
    if pretty {
        writer.push('\n');
        write_indent(writer, level);
        assert(writer@ =~= old(writer)@ + group_separator(pretty, level));
    } else {
        writer.push(' ');
        assert(writer@ =~= old(writer)@ + group_separator(pretty, level));
    }
}

impl Value {
    /// Appends the text of this value to `writer`.  The text of each float
    /// is asked of `floats`, and the answers are added to `log`.
    #[verifier::rlimit(30)]
    pub fn format<F: FloatOps>(
        &self,
        writer: &mut String,
        pretty: bool,
        indent_level: usize,
        floats: &F,
        log: &mut Answers,
    )
        ensures
            old(log)@.is_prefix_of(final(log)@),
            consistent(final(log)@),
            forall|fm: FloatModel|
                fm.explains(final(log)@) ==> final(writer)@ == old(writer)@ + #[trigger] value_text(
                    self@,
                    pretty,
                    indent_level,
                    fm,
                ),
        decreases self, 0nat,
    {
        proof {
            use_type_invariant(&*log);
        }
        match self {
            Value::Null => {
                writer.append("null");
                proof {
                    reveal_strlit("null");
                    assert(writer@ =~= old(writer)@ + seq!['n', 'u', 'l', 'l']);
                }
            },
            Value::String(s) => {
                writer.push('"');
                writer.append(s.as_str());
                writer.push('"');
                assert(writer@ =~= old(writer)@ + (seq!['"'] + s@ + seq!['"']));
            },
            Value::Integer(i) => {
                push_int(writer, *i);
            },
            Value::Float(bits) => {
                let text = ask_text(floats, *bits, log);
                writer.append(text.as_str());
            },
            Value::Boolean(b) => {
                if *b {
                    writer.append("true");
                    proof {
                        reveal_strlit("true");
                        assert(writer@ =~= old(writer)@ + seq!['t', 'r', 'u', 'e']);
                    }
                } else {
                    writer.append("false");
                    proof {
                        reveal_strlit("false");
                        assert(writer@ =~= old(writer)@ + seq!['f', 'a', 'l', 's', 'e']);
                    }
                }
            },
            Value::List(l) => {
                writer.push('[');
                if l.len() == 0 {
                    writer.push(']');
                    assert(writer@ =~= old(writer)@ + seq!['[', ']']);
                    return ;
                }
                let inner = next_level(indent_level);
                write_group_open(writer, pretty, inner);
                let ghost items = self@->List_0;
                let ghost start = writer@;
                proof {
                    lemma_list_view(*l);
                }
                let mut i: usize = 0;
                while i < l.len()
                    invariant
                        *self == Value::List(*l),
                        i <= l.len(),
                        inner == deeper(indent_level),
                        items == self@->List_0,
                        items.len() == l.len(),
                        forall|j: int| 0 <= j < l.len() ==> items[j] == l@[j]@,
                        old(log)@.is_prefix_of(log@),
                        consistent(log@),
                        forall|fm: FloatModel|
                            fm.explains(log@) ==> writer@ == start + #[trigger] items_text(
                                items,
                                i as nat,
                                pretty,
                                inner,
                                fm,
                            ),
                    decreases l.len() - i,
                {
                    let ghost before = writer@;
                    let ghost log_before = log@;
                    if i > 0 {
                        write_group_separator(writer, pretty, inner);
                    }
                    let ghost middle = writer@;
                    assert(decreases_to!(self => self->List_0[i as int]));
                    l[i].format(writer, pretty, inner, floats, log);
                    i += 1;
                    assert forall|fm: FloatModel| fm.explains(log@) implies writer@ == start
                        + #[trigger] items_text(items, i as nat, pretty, inner, fm) by {
                        lemma_explains_prefix(fm, log_before, log@);
                        let prior = items_text(items, (i - 1) as nat, pretty, inner, fm);
                        let item = value_text(items[i - 1], pretty, inner, fm);
                        assert(before == start + prior);
                        assert(writer@ == middle + item);
                        assert(items_text(items, i as nat, pretty, inner, fm) == prior + (if i > 1 {
                            group_separator(pretty, inner)
                        } else {
                            Seq::empty()
                        }) + item);
                        assert(writer@ =~= start + (prior + (if i > 1 {
                            group_separator(pretty, inner)
                        } else {
                            Seq::empty()
                        }) + item));
                    }
                }
                let ghost body_end = writer@;
                write_group_open(writer, pretty, indent_level);
                writer.push(']');
                assert forall|fm: FloatModel| fm.explains(log@) implies writer@ == old(writer)@
                    + #[trigger] value_text(self@, pretty, indent_level, fm) by {
                    let body = items_text(items, items.len(), pretty, inner, fm);
                    assert(body_end == start + body);
                    assert(writer@ =~= old(writer)@ + (seq!['['] + group_open(
                        pretty,
                        inner,
                    ) + body + group_open(pretty, indent_level) + seq![']']));
                }
            },
            Value::Mapping(m) => {
                writer.push('[');
                if m.len() == 0 {
                    writer.push(']');
                    assert(writer@ =~= old(writer)@ + seq!['[', ']']);
                    return ;
                }
                let inner = next_level(indent_level);
                write_group_open(writer, pretty, inner);
                let ghost entries = self@->Mapping_0;
                let ghost start = writer@;
                proof {
                    lemma_mapping_view(*m);
                }
                let mut i: usize = 0;
                while i < m.len()
                    invariant
                        *self == Value::Mapping(*m),
                        i <= m.len(),
                        inner == deeper(indent_level),
                        entries == self@->Mapping_0,
                        entries.len() == m.len(),
                        forall|j: int|
                            0 <= j < m.len() ==> entries[j] == (m@[j].0@, m@[j].1@),
                        old(log)@.is_prefix_of(log@),
                        consistent(log@),
                        forall|fm: FloatModel|
                            fm.explains(log@) ==> writer@ == start + #[trigger] entries_text(
                                entries,
                                i as nat,
                                pretty,
                                inner,
                                fm,
                            ),
                    decreases m.len() - i,
                {
                    let ghost before = writer@;
                    let ghost log_before = log@;
                    if i > 0 {
                        write_group_separator(writer, pretty, inner);
                    }
                    let ghost middle = writer@;
                    assert(decreases_to!(self => self->Mapping_0[i as int].1));
                    m[i].1.format_entry(&m[i].0, writer, pretty, inner, floats, log);
                    i += 1;
                    assert forall|fm: FloatModel| fm.explains(log@) implies writer@ == start
                        + #[trigger] entries_text(entries, i as nat, pretty, inner, fm) by {
                        lemma_explains_prefix(fm, log_before, log@);
                        let prior = entries_text(entries, (i - 1) as nat, pretty, inner, fm);
                        let item = keyed_text(entries[i - 1], pretty, inner, fm);
                        assert(before == start + prior);
                        assert(writer@ == middle + item);
                        assert(middle =~= before + (if i > 1 {
                            group_separator(pretty, inner)
                        } else {
                            Seq::empty()
                        }));
                        assert(writer@ =~= start + (prior + (if i > 1 {
                            group_separator(pretty, inner)
                        } else {
                            Seq::empty()
                        }) + item));
                    }
                }
                let ghost body_end = writer@;
                write_group_open(writer, pretty, indent_level);
                writer.push(']');
                assert forall|fm: FloatModel| fm.explains(log@) implies writer@ == old(writer)@
                    + #[trigger] value_text(self@, pretty, indent_level, fm) by {
                    let body = entries_text(entries, entries.len(), pretty, inner, fm);
                    assert(body_end == start + body);
                    assert(writer@ =~= old(writer)@ + (seq!['['] + group_open(pretty, inner) + body
                        + group_open(pretty, indent_level) + seq![']']));
                }
            },
        }
    }

    /// Appends the text of this value as the entry of `key` in a mapping.
    fn format_entry<F: FloatOps>(
        &self,
        key: &String,
        writer: &mut String,
        pretty: bool,
        indent_level: usize,
        floats: &F,
        log: &mut Answers,
    )
        ensures
            old(log)@.is_prefix_of(final(log)@),
            consistent(final(log)@),
            forall|fm: FloatModel|
                fm.explains(final(log)@) ==> final(writer)@ == old(writer)@ + #[trigger] keyed_text(
                    (key@, self@),
                    pretty,
                    indent_level,
                    fm,
                ),
        decreases self, 1nat,
    {
        proof {
            use_type_invariant(&*log);
        }
        writer.push('"');
        writer.append(key.as_str());
        writer.push('"');
        writer.push(':');
        writer.push(' ');
        let ghost middle = writer@;
        assert(middle =~= old(writer)@ + (seq!['"'] + key@ + seq!['"', ':', ' ']));
        self.format(writer, pretty, indent_level, floats, log);
        assert forall|fm: FloatModel| fm.explains(log@) implies writer@ == old(writer)@
            + #[trigger] keyed_text((key@, self@), pretty, indent_level, fm) by {
            let item = value_text(self@, pretty, indent_level, fm);
            assert(writer@ == middle + item);
            assert(writer@ =~= old(writer)@ + (seq!['"'] + key@ + seq!['"', ':', ' '] + item));
        }
    }
}

/// Whether `text` is the text of `v` under every float model that explains
/// `log`, and there is such a model.
pub open spec fn is_text_of(text: Seq<char>, v: ValueView, pretty: bool, log: Seq<FloatCall>) -> bool {
    consistent(log) && forall|fm: FloatModel| #[trigger]
        fm.explains(log) ==> text == value_text(v, pretty, 0, fm)
}

impl Value {
    /// The text of this value, compact or pretty.  The text of each float is
    /// asked of `floats`: the result is the text of the value under every
    /// float model that explains the answers given.
    pub fn write_formatted<F: FloatOps>(&self, pretty: bool, floats: &F) -> (r: String)
        ensures
            exists|log: Seq<FloatCall>| is_text_of(r@, self@, pretty, log),
    {
        let mut writer = String::new();
        let mut log = Answers::new();
        self.format(&mut writer, pretty, 0, floats, &mut log);
        proof {
            assert forall|fm: FloatModel| #[trigger] fm.explains(log@) implies writer@
                == value_text(self@, pretty, 0, fm) by {
                assert(writer@ =~= Seq::<char>::empty() + value_text(self@, pretty, 0, fm));
            }
            assert(is_text_of(writer@, self@, pretty, log@));
        }
        writer
    }

    /// Whether this value is a string.
    pub fn is_string(&self) -> (r: bool)
        ensures
            r == (self@ is String),
    {
        match self {
            Value::String(_) => true,
            _ => false,
        }
    }

    /// Whether this value is an integer.
    pub fn is_integer(&self) -> (r: bool)
        ensures
            r == (self@ is Integer),
    {
        match self {
            Value::Integer(_) => true,
            _ => false,
        }
    }

    /// Whether this value is a float.
    pub fn is_float(&self) -> (r: bool)
        ensures
            r == (self@ is Float),
    {
        match self {
            Value::Float(_) => true,
            _ => false,
        }
    }

    /// Whether this value is a boolean.
    pub fn is_boolean(&self) -> (r: bool)
        ensures
            r == (self@ is Boolean),
    {
        match self {
            Value::Boolean(_) => true,
            _ => false,
        }
    }

    /// Whether this value is a list.
    pub fn is_list(&self) -> (r: bool)
        ensures
            r == (self@ is List),
    {
        match self {
            Value::List(_) => true,
            _ => false,
        }
    }

    /// Whether this value is a mapping.
    pub fn is_map(&self) -> (r: bool)
        ensures
            r == (self@ is Mapping),
    {
        match self {
            Value::Mapping(_) => true,
            _ => false,
        }
    }
}

} // verus!
