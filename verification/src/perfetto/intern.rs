//! Texts that are written once and then referred to by number.
use crate::perfetto::packet::{
    debug_models, debug_view, DebugAnnotation, DebugModel, DebugValue, Interned, InternedData,
    InternedModel,
};
use crate::trace::annotation::{self, entries_model, list_model, Annotation, AnnotationModel};
use vstd::prelude::*;

verus! {

/// The first place of a text in a table, or the table's length where it is not there.
pub open spec fn text_place(table: Seq<Seq<char>>, text: Seq<char>) -> int
    decreases table.len(),
{
    if table.len() == 0 || table[0] == text {
        0
    } else {
        1 + text_place(table.drop_first(), text)
    }
}

/// The table with the text in it, at the end where it was not there before.
pub open spec fn with_text(table: Seq<Seq<char>>, text: Seq<char>) -> Seq<Seq<char>> {
    if table.contains(text) {
        table
    } else {
        table.push(text)
    }
}

/// The number of a text: one for the first text of the table, and so on.
pub open spec fn iid_of(table: Seq<Seq<char>>, text: Seq<char>) -> int {
    text_place(table, text) + 1
}

/// What has to be introduced of a text: nothing where the table has it already.
pub open spec fn news(table: Seq<Seq<char>>, text: Seq<char>) -> Seq<(u64, Seq<char>)> {
    if table.contains(text) {
        Seq::empty()
    } else {
        seq![((table.len() + 1) as u64, text)]
    }
}

/// What `text_place` finds.
pub proof fn text_place_is_first(table: Seq<Seq<char>>, text: Seq<char>)
    ensures
        0 <= text_place(table, text) <= table.len(),
        forall|i: int| 0 <= i < text_place(table, text) ==> #[trigger] table[i] != text,
        text_place(table, text) < table.len() ==> table[text_place(table, text)] == text,
        text_place(table, text) < table.len() <==> table.contains(text),
    decreases table.len(),
{
    if table.len() > 0 && table[0] != text {
        let rest = table.drop_first();
        text_place_is_first(rest, text);
        assert forall|i: int| 0 <= i < text_place(table, text) implies #[trigger] table[i]
            != text by {
            if i > 0 {
                assert(rest[i - 1] == table[i]);
            }
        }
        if table.contains(text) {
            let i = choose|i: int| 0 <= i < table.len() && table[i] == text;
            assert(rest[i - 1] == text);
        }
    } else if table.len() > 0 {
        assert(table.contains(table[0]));
    }
}

proof fn text_place_known(table: Seq<Seq<char>>, text: Seq<char>, i: int)
    requires
        0 <= i <= table.len(),
        forall|j: int| 0 <= j < i ==> #[trigger] table[j] != text,
        i < table.len() ==> table[i] == text,
    ensures
        text_place(table, text) == i,
{
    text_place_is_first(table, text);
    let p = text_place(table, text);
    if p < i {
        assert(table[p] == text);
    } else if p > i {
        assert(table[i] != text);
    }
}

/// A text keeps its number, whatever is interned after it, and no two texts share one.
pub proof fn iid_is_stable(table: Seq<Seq<char>>, text: Seq<char>, other: Seq<char>)
    requires
        table.contains(text),
    ensures
        iid_of(with_text(table, other), text) == iid_of(table, text),
        iid_of(with_text(table, other), other) == iid_of(with_text(table, other), text) ==> other
            == text,
{
    let after = with_text(table, other);
    let p = text_place(table, text);
    text_place_is_first(table, text);
    text_place_is_first(after, other);
    assert(after.contains(other)) by {
        if !table.contains(other) {
            assert(after[table.len() as int] == other);
        }
    }
    assert forall|j: int| 0 <= j < p implies #[trigger] after[j] != text by {
        assert(after[j] == table[j]);
    }
    text_place_known(after, text, p);
}

/// The table after a number of texts have been interned, one after the other.
pub open spec fn table_after(texts: Seq<Seq<char>>) -> Seq<Seq<char>>
    decreases texts.len(),
{
    if texts.len() == 0 {
        Seq::empty()
    } else {
        with_text(table_after(texts.drop_last()), texts.last())
    }
}

/// The table holds the texts that have been interned, each once.
pub proof fn table_holds_texts(texts: Seq<Seq<char>>)
    ensures
        table_after(texts).no_duplicates(),
        forall|text: Seq<char>| #[trigger]
            table_after(texts).contains(text) <==> texts.contains(text),
        table_after(texts).len() == texts.to_set().len(),
    decreases texts.len(),
{
    let table = table_after(texts);
    if texts.len() > 0 {
        let front = texts.drop_last();
        let before = table_after(front);
        table_holds_texts(front);
        assert forall|text: Seq<char>| #[trigger] table.contains(text) <==> texts.contains(text) by {
            assert(texts =~= front.push(texts.last()));
            if texts.contains(text) {
                let i = choose|i: int| 0 <= i < texts.len() && texts[i] == text;
                if i < front.len() {
                    assert(front[i] == text);
                    assert(before.contains(text));
                    let j = choose|j: int| 0 <= j < before.len() && before[j] == text;
                    assert(table[j] == text);
                } else if !before.contains(text) {
                    assert(table[before.len() as int] == text);
                }
            }
            if table.contains(text) {
                let j = choose|j: int| 0 <= j < table.len() && table[j] == text;
                if j < before.len() {
                    assert(before[j] == text);
                    assert(before.contains(text));
                    let i = choose|i: int| 0 <= i < front.len() && front[i] == text;
                    assert(texts[i] == text);
                } else {
                    assert(texts[texts.len() - 1] == text);
                }
            }
        }
    }
    table.unique_seq_to_set();
    assert(table.to_set() =~= texts.to_set());
}

/// A text that has been interned keeps its number from then on.
proof fn number_is_kept(texts: Seq<Seq<char>>, k: int)
    requires
        0 <= k < texts.len(),
    ensures
        table_after(texts).contains(texts[k]),
        iid_of(table_after(texts), texts[k]) == iid_of(table_after(texts.take(k + 1)), texts[k]),
    decreases texts.len(),
{
    table_holds_texts(texts);
    if k == texts.len() - 1 {
        assert(texts.take(k + 1) =~= texts);
    } else {
        let front = texts.drop_last();
        number_is_kept(front, k);
        assert(front.take(k + 1) =~= texts.take(k + 1));
        iid_is_stable(table_after(front), texts[k], texts.last());
    }
}

/// What comes of interning a text after others. A text that was not interned before is new, and
/// gets the number behind those of all distinct texts before it; one that was is not new, and has
/// the number that it was given then. No number is zero.
pub proof fn interning_numbers_texts(texts: Seq<Seq<char>>, text: Seq<char>)
    ensures
        ({
            let before = table_after(texts);
            let iid = iid_of(with_text(before, text), text);
            &&& with_text(before, text) == table_after(texts.push(text))
            &&& before.contains(text) <==> texts.contains(text)
            &&& iid >= 1
            &&& !texts.contains(text) ==> iid == 1 + texts.to_set().len()
            &&& forall|k: int|
                0 <= k < texts.len() && #[trigger] texts[k] == text ==> iid == iid_of(
                    table_after(texts.take(k + 1)),
                    text,
                )
        }),
{
    let before = table_after(texts);
    let after = with_text(before, text);
    let all = texts.push(text);
    assert(all.drop_last() =~= texts);
    table_holds_texts(texts);
    text_place_is_first(after, text);
    if !texts.contains(text) {
        assert forall|j: int| 0 <= j < before.len() implies #[trigger] after[j] != text by {
            assert(before.contains(before[j]));
        }
        text_place_known(after, text, before.len() as int);
    }
    assert forall|k: int| 0 <= k < texts.len() && #[trigger] texts[k] == text implies iid_of(
        after,
        text,
    ) == iid_of(table_after(texts.take(k + 1)), text) by {
        number_is_kept(texts, k);
    }
}

/// Of the texts that have been interned, no two share a number.
pub proof fn numbers_tell_texts_apart(texts: Seq<Seq<char>>, one: Seq<char>, other: Seq<char>)
    requires
        texts.contains(one),
        texts.contains(other),
        iid_of(table_after(texts), one) == iid_of(table_after(texts), other),
    ensures
        one == other,
{
    table_holds_texts(texts);
    text_place_is_first(table_after(texts), one);
    text_place_is_first(table_after(texts), other);
}

/// Texts with numbers.
pub struct InternedStrings {
    names: Vec<String>,
}

impl InternedStrings {
    pub closed spec fn view(&self) -> Seq<Seq<char>> {
        Seq::new(self.names@.len(), |i: int| self.names@[i]@)
    }

    pub fn new() -> (result: Self)
        ensures
            result@ == Seq::<Seq<char>>::empty(),
    {
        let result = InternedStrings { names: Vec::new() };
        assert(result@ =~= Seq::<Seq<char>>::empty());
        result
    }

    /// The number of the text, and whether it is new.
    pub fn intern_string(&mut self, s: &String) -> (result: (bool, u64))
        ensures
            final(self)@ == with_text(old(self)@, s@),
            result.0 == !old(self)@.contains(s@),
            result.1 == iid_of(final(self)@, s@),
            result.0 ==> result.1 == old(self)@.len() + 1,
    {
        let ghost table = self@;
        proof {
            text_place_is_first(table, s@);
        }
        let mut i: usize = 0;
        while i < self.names.len()
            invariant
                i <= self.names.len(),
                *self == *old(self),
                table == self@,
                forall|j: int| 0 <= j < i ==> #[trigger] table[j] != s@,
            decreases self.names.len() - i,
        {
            assert(table[i as int] == self.names@[i as int]@);
            if self.names[i] == *s {
                proof {
                    text_place_known(table, s@, i as int);
                    assert(table.contains(table[i as int]));
                }
                return (false, i as u64 + 1);
            }
            i += 1;
        }
        self.names.push(s.clone());
        assert(self@ =~= table.push(s@));
        proof {
            assert forall|j: int| 0 <= j < table.len() implies #[trigger] self@[j] != s@ by {
                assert(self@[j] == table[j]);
            }
            text_place_known(self@, s@, table.len() as int);
        }
        (true, self.names.len() as u64)
    }
}

/// The tables for annotations, and what a packet has to introduce so far.
#[verifier::ext_equal]
pub struct Noting {
    pub names: Seq<Seq<char>>,
    pub values: Seq<Seq<char>>,
    pub introduced: InternedModel,
}

pub open spec fn noting_name(st: Noting, name: Seq<char>) -> Noting {
    Noting {
        names: with_text(st.names, name),
        introduced: InternedModel {
            annotation_names: st.introduced.annotation_names + news(st.names, name),
            ..st.introduced
        },
        ..st
    }
}

pub open spec fn noting_value(st: Noting, value: Seq<char>) -> Noting {
    Noting {
        values: with_text(st.values, value),
        introduced: InternedModel {
            string_values: st.introduced.string_values + news(st.values, value),
            ..st.introduced
        },
        ..st
    }
}

pub open spec fn plain(value: DebugValue) -> DebugModel {
    DebugModel {
        name_iid: None,
        value: Some(value),
        dict_entries: Seq::empty(),
        array_values: Seq::empty(),
    }
}

/// The annotation in the form of packets, and the tables after it.
pub open spec fn converted(annotation: AnnotationModel, st: Noting) -> (DebugModel, Noting)
    decreases annotation, 0nat,
{
    match annotation {
        AnnotationModel::Bool(b) => (plain(DebugValue::BoolValue(b)), st),
        AnnotationModel::Uint64(i) => (plain(DebugValue::UintValue(i)), st),
        AnnotationModel::Int64(i) => (plain(DebugValue::IntValue(i)), st),
        AnnotationModel::Double(d) => (plain(DebugValue::DoubleValue(d)), st),
        AnnotationModel::Pointer(p) => (plain(DebugValue::PointerValue(p)), st),
        AnnotationModel::String(s) => {
            let after = noting_value(st, s);
            (plain(DebugValue::StringValueIid(iid_of(after.values, s) as u64)), after)
        },
        AnnotationModel::Array(list) => {
            let (values, after) = converted_list(list, st);
            (
                DebugModel {
                    name_iid: None,
                    value: None,
                    dict_entries: Seq::empty(),
                    array_values: values,
                },
                after,
            )
        },
        AnnotationModel::Dict(entries) => {
            let (values, after) = converted_entries(entries, st);
            (
                DebugModel {
                    name_iid: None,
                    value: None,
                    dict_entries: values,
                    array_values: Seq::empty(),
                },
                after,
            )
        },
    }
}

/// The annotations of a list, one after the other.
pub open spec fn converted_list(list: Seq<AnnotationModel>, st: Noting) -> (Seq<DebugModel>, Noting)
    decreases list, list.len(),
{
    if list.len() == 0 {
        (Seq::empty(), st)
    } else {
        let (front, mid) = converted_list(list.drop_last(), st);
        let (value, after) = converted(list.last(), mid);
        (front.push(value), after)
    }
}

/// The named annotations of a list, one after the other. A name is introduced before its value.
pub open spec fn converted_entries(
    entries: Seq<(Seq<char>, AnnotationModel)>,
    st: Noting,
) -> (Seq<DebugModel>, Noting)
    decreases entries, entries.len(),
{
    if entries.len() == 0 {
        (Seq::empty(), st)
    } else {
        let (front, mid) = converted_entries(entries.drop_last(), st);
        let named = noting_name(mid, entries.last().0);
        let (value, after) = converted(entries.last().1, named);
        (
            front.push(
                DebugModel {
                    name_iid: Some(iid_of(named.names, entries.last().0) as u64),
                    ..value
                },
            ),
            after,
        )
    }
}

/// The numbers of the texts in annotations.
pub struct AnnotationTexts {
    pub names: InternedStrings,
    pub values: InternedStrings,
}

impl AnnotationTexts {
    /// The tables, and what a packet has to introduce so far.
    pub open spec fn noting(self, data: InternedData) -> Noting {
        Noting { names: self.names@, values: self.values@, introduced: data@ }
    }

    /// The value of an annotation that is neither a list nor a dictionary.
    pub fn convert_basic_annotation(
        &mut self,
        annotation: &Annotation,
        interned_data: &mut InternedData,
    ) -> (result: DebugValue)
        requires
            !(annotation is Array) && !(annotation is Dict),
        ensures
            converted(annotation@, old(self).noting(*old(interned_data))) == (
                plain(result),
                final(self).noting(*final(interned_data)),
            ),
    {
        match annotation {
            Annotation::Bool(b) => DebugValue::BoolValue(*b),
            Annotation::Uint64(i) => DebugValue::UintValue(*i),
            Annotation::Int64(i) => DebugValue::IntValue(*i),
            Annotation::Double(d) => DebugValue::DoubleValue(*d),
            Annotation::Pointer(p) => DebugValue::PointerValue(*p),
            Annotation::String(s) => {
                let ghost before = self.noting(*interned_data);
                let (is_new, iid) = self.values.intern_string(s);
                if is_new {
                    interned_data.debug_annotation_string_values.push(
                        Interned { iid, text: s.clone() },
                    );
                }
                assert(interned_data@.string_values =~= before.introduced.string_values + news(
                    before.values,
                    s@,
                ));
                assert(self.noting(*interned_data) =~= noting_value(before, s@));
                DebugValue::StringValueIid(iid)
            },
            _ => DebugValue::BoolValue(false),
        }
    }

    fn convert_annotation(
        &mut self,
        annotation: &Annotation,
        interned_data: &mut InternedData,
    ) -> (result: DebugAnnotation)
        ensures
            converted(annotation@, old(self).noting(*old(interned_data))) == (
                result@,
                final(self).noting(*final(interned_data)),
            ),
        decreases annotation, 0nat,
    {
        proof {
            annotation::annotation_view(annotation);
        }
        let mut result = DebugAnnotation {
            name_iid: None,
            value: None,
            dict_entries: Vec::new(),
            array_values: Vec::new(),
        };
        match annotation {
            Annotation::Dict(map) => {
                result.dict_entries = self.convert_annotation_map(map, interned_data);
            },
            Annotation::Array(arr) => {
                result.array_values = self.convert_annotation_array(arr, interned_data);
            },
            _ => {
                result.value = Some(self.convert_basic_annotation(annotation, interned_data));
            },
        }
        proof {
            debug_view(&result);
            let model = converted(
                annotation@,
                old(self).noting(*old(interned_data)),
            ).0;
            assert(result@.dict_entries =~= model.dict_entries);
            assert(result@.array_values =~= model.array_values);
        }
        result
    }

    /// The named annotations in the form of packets. Texts that come up for the first time are
    /// added to what the packet introduces.
    pub fn convert_annotation_map(
        &mut self,
        annotations: &Vec<(String, Annotation)>,
        interned_data: &mut InternedData,
    ) -> (result: Vec<DebugAnnotation>)
        ensures
            converted_entries(entries_model(annotations@), old(self).noting(*old(interned_data)))
                == (debug_models(result@), final(self).noting(*final(interned_data))),
        decreases annotations, 0nat,
    {
        let ghost entries = entries_model(annotations@);
        let ghost before = self.noting(*interned_data);
        let mut result: Vec<DebugAnnotation> = Vec::new();
        let mut i: usize = 0;
        proof {
            assert(entries.take(0) =~= Seq::empty());
            assert(debug_models(result@) =~= Seq::empty());
        }
        while i < annotations.len()
            invariant
                i <= annotations.len(),
                entries == entries_model(annotations@),
                before == old(self).noting(*old(interned_data)),
                converted_entries(entries.take(i as int), before) == (
                    debug_models(result@),
                    self.noting(*interned_data),
                ),
            decreases annotations.len() - i,
        {
            let entry = &annotations[i];
            let ghost mid = self.noting(*interned_data);
            let ghost front = debug_models(result@);
            proof {
                assert(entries[i as int] == (entry.0@, entry.1@));
                assert(entries.take(i + 1).drop_last() =~= entries.take(i as int));
                assert(entries.take(i + 1).last() == entries[i as int]);
                assert(decreases_to!(annotations => annotations@[i as int].1));
            }
            let (is_new, key_iid) = self.names.intern_string(&entry.0);
            if is_new {
                interned_data.debug_annotation_names.push(
                    Interned { iid: key_iid, text: entry.0.clone() },
                );
            }
            proof {
                assert(interned_data@.annotation_names =~= mid.introduced.annotation_names + news(
                    mid.names,
                    entry.0@,
                ));
                assert(self.noting(*interned_data) =~= noting_name(mid, entry.0@));
            }
            let mut debug_annotation = self.convert_annotation(&entry.1, interned_data);
            let ghost unnamed = debug_annotation;
            debug_annotation.name_iid = Some(key_iid);
            proof {
                debug_view(&unnamed);
                debug_view(&debug_annotation);
            }
            let ghost model = debug_annotation@;
            result.push(debug_annotation);
            assert(debug_models(result@) =~= front.push(model));
            i += 1;
        }
        assert(entries.take(i as int) =~= entries);
        result
    }

    /// The annotations in the form of packets. Texts that come up for the first time are added to
    /// what the packet introduces.
    pub fn convert_annotation_array(
        &mut self,
        annotations: &Vec<Annotation>,
        interned_data: &mut InternedData,
    ) -> (result: Vec<DebugAnnotation>)
        ensures
            converted_list(list_model(annotations@), old(self).noting(*old(interned_data))) == (
                debug_models(result@),
                final(self).noting(*final(interned_data)),
            ),
        decreases annotations, 0nat,
    {
        let ghost list = list_model(annotations@);
        let ghost before = self.noting(*interned_data);
        let mut result: Vec<DebugAnnotation> = Vec::new();
        let mut i: usize = 0;
        proof {
            assert(list.take(0) =~= Seq::empty());
            assert(debug_models(result@) =~= Seq::empty());
        }
        while i < annotations.len()
            invariant
                i <= annotations.len(),
                list == list_model(annotations@),
                before == old(self).noting(*old(interned_data)),
                converted_list(list.take(i as int), before) == (
                    debug_models(result@),
                    self.noting(*interned_data),
                ),
            decreases annotations.len() - i,
        {
            let ghost front = debug_models(result@);
            proof {
                assert(list[i as int] == annotations@[i as int]@);
                assert(list.take(i + 1).drop_last() =~= list.take(i as int));
                assert(list.take(i + 1).last() == list[i as int]);
                assert(decreases_to!(annotations => annotations@[i as int]));
            }
            let debug_annotation = self.convert_annotation(&annotations[i], interned_data);
            let ghost model = debug_annotation@;
            result.push(debug_annotation);
            assert(debug_models(result@) =~= front.push(model));
            i += 1;
        }
        assert(list.take(i as int) =~= list);
        result
    }
}

} // verus!
