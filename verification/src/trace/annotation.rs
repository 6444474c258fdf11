//! Values that a frame can be annotated with.
use vstd::prelude::*;

verus! {

/// A value attached to a frame under a name.
#[derive(Debug, PartialEq)]
pub enum Annotation {
    Bool(bool),
    Uint64(u64),
    Int64(i64),
    /// Displayed differently from `Uint64` in the Perfetto UI.
    Pointer(u64),
    /// The bits of a double precision number.
    Double(u64),
    String(String),
    Array(Vec<Annotation>),
    /// Entries in the order in which they were added.
    Dict(Vec<(String, Annotation)>),
}

pub enum AnnotationModel {
    Bool(bool),
    Uint64(u64),
    Int64(i64),
    Pointer(u64),
    Double(u64),
    String(Seq<char>),
    Array(Seq<AnnotationModel>),
    Dict(Seq<(Seq<char>, AnnotationModel)>),
}

impl Annotation {
    pub open spec fn model(self) -> AnnotationModel
        decreases self,
    {
        match self {
            Annotation::Bool(b) => AnnotationModel::Bool(b),
            Annotation::Uint64(i) => AnnotationModel::Uint64(i),
            Annotation::Int64(i) => AnnotationModel::Int64(i),
            Annotation::Pointer(p) => AnnotationModel::Pointer(p),
            Annotation::Double(d) => AnnotationModel::Double(d),
            Annotation::String(s) => AnnotationModel::String(s@),
            Annotation::Array(v) => AnnotationModel::Array(
                Seq::new(
                    v@.len(),
                    |i: int| if 0 <= i < v@.len() { v@[i].model() } else { arbitrary() },
                ),
            ),
            Annotation::Dict(v) => AnnotationModel::Dict(
                Seq::new(
                    v@.len(),
                    |i: int|
                        if 0 <= i < v@.len() { (v@[i].0@, v@[i].1.model()) } else { arbitrary() },
                ),
            ),
        }
    }
}

impl View for Annotation {
    type V = AnnotationModel;

    open spec fn view(&self) -> AnnotationModel {
        self.model()
    }
}

/// The model of a compound annotation holds the models of its parts.
pub proof fn annotation_view(annotation: &Annotation)
    ensures
        match *annotation {
            Annotation::Array(v) => annotation@ == AnnotationModel::Array(list_model(v@)),
            Annotation::Dict(v) => annotation@ == AnnotationModel::Dict(entries_model(v@)),
            _ => true,
        },
{
    reveal_with_fuel(Annotation::model, 2);
    match *annotation {
        Annotation::Array(v) => {
            assert(annotation@->Array_0 =~= list_model(v@));
        },
        Annotation::Dict(v) => {
            assert(annotation@->Dict_0 =~= entries_model(v@));
        },
        _ => {},
    }
}

/// The values of a list of annotations.
pub open spec fn list_model(list: Seq<Annotation>) -> Seq<AnnotationModel> {
    Seq::new(list.len(), |i: int| list[i]@)
}

/// The names and values of a list of named annotations.
pub open spec fn entries_model(entries: Seq<(String, Annotation)>) -> Seq<
    (Seq<char>, AnnotationModel),
> {
    Seq::new(entries.len(), |i: int| (entries[i].0@, entries[i].1@))
}

/// No name stands twice in a list of named annotations.
pub open spec fn distinct_names(entries: Seq<(Seq<char>, AnnotationModel)>) -> bool {
    forall|i: int, j: int| 0 <= i < j < entries.len() ==> #[trigger] entries[i].0 != #[trigger] entries[j].0
}

/// In no dictionary of the annotation, on whatever level, does a name stand twice.
pub open spec fn well_named(annotation: AnnotationModel) -> bool
    decreases annotation,
{
    match annotation {
        AnnotationModel::Array(list) => forall|i: int|
            0 <= i < list.len() ==> well_named(#[trigger] list[i]),
        AnnotationModel::Dict(entries) => {
            &&& distinct_names(entries)
            &&& forall|i: int| 0 <= i < entries.len() ==> well_named((#[trigger] entries[i]).1)
        },
        _ => true,
    }
}

/// In a list of named annotations no name stands twice, nor in any dictionary in it.
pub open spec fn entries_well_named(entries: Seq<(Seq<char>, AnnotationModel)>) -> bool {
    &&& distinct_names(entries)
    &&& forall|i: int| 0 <= i < entries.len() ==> well_named((#[trigger] entries[i]).1)
}

impl Clone for Annotation {
    fn clone(&self) -> (result: Self)
        ensures
            result@ == self@,
        decreases self,
    {
        match self {
            Annotation::Bool(b) => Annotation::Bool(*b),
            Annotation::Uint64(i) => Annotation::Uint64(*i),
            Annotation::Int64(i) => Annotation::Int64(*i),
            Annotation::Pointer(p) => Annotation::Pointer(*p),
            Annotation::Double(d) => Annotation::Double(*d),
            Annotation::String(s) => Annotation::String(s.clone()),
            Annotation::Array(v) => {
                let mut copy: Vec<Annotation> = Vec::new();
                let mut i: usize = 0;
                while i < v.len()
                    invariant
                        i <= v.len(),
                        i == copy.len(),
                        forall|k: int| 0 <= k < i ==> copy@[k]@ == v@[k]@,
                        *self == Annotation::Array(*v),
                    decreases v.len() - i,
                {
                    assert(decreases_to!(self => self->Array_0@[i as int]));
                    copy.push(v[i].clone());
                    i += 1;
                }
                let result = Annotation::Array(copy);
                proof {
                    annotation_view(self);
                    annotation_view(&result);
                }
                assert(list_model(copy@) =~= list_model(v@));
                result
            },
            Annotation::Dict(v) => {
                let mut copy: Vec<(String, Annotation)> = Vec::new();
                let mut i: usize = 0;
                while i < v.len()
                    invariant
                        i <= v.len(),
                        i == copy.len(),
                        forall|k: int|
                            0 <= k < i ==> copy@[k].0@ == v@[k].0@ && copy@[k].1@ == v@[k].1@,
                        *self == Annotation::Dict(*v),
                    decreases v.len() - i,
                {
                    assert(decreases_to!(self => self->Dict_0@[i as int].1));
                    copy.push((v[i].0.clone(), v[i].1.clone()));
                    i += 1;
                }
                let result = Annotation::Dict(copy);
                proof {
                    annotation_view(self);
                    annotation_view(&result);
                }
                assert(entries_model(copy@) =~= entries_model(v@));
                result
            },
        }
    }
}

/// A copy of a list of named annotations.
pub fn clone_entries(entries: &Vec<(String, Annotation)>) -> (result: Vec<(String, Annotation)>)
    ensures
        entries_model(result@) == entries_model(entries@),
{
    let mut copy: Vec<(String, Annotation)> = Vec::new();
    let mut i: usize = 0;
    while i < entries.len()
        invariant
            i <= entries.len(),
            i == copy.len(),
            forall|k: int|
                0 <= k < i ==> copy@[k].0@ == entries@[k].0@ && copy@[k].1@ == entries@[k].1@,
        decreases entries.len() - i,
    {
        copy.push((entries[i].0.clone(), entries[i].1.clone()));
        i += 1;
    }
    assert(entries_model(copy@) =~= entries_model(entries@));
    copy
}

/// Adds a named annotation, in place of the one of that name where there is one, else at the end.
pub open spec fn with_entry(
    entries: Seq<(Seq<char>, AnnotationModel)>,
    name: Seq<char>,
    value: AnnotationModel,
) -> Seq<(Seq<char>, AnnotationModel)>
    decreases entries.len(),
{
    if entries.len() == 0 {
        seq![(name, value)]
    } else if entries[0].0 == name {
        seq![(name, value)] + entries.drop_first()
    } else {
        seq![entries[0]] + with_entry(entries.drop_first(), name, value)
    }
}

/// An annotation takes the place of the first one of its name; where there is none, it goes to the
/// end. All others stay where they are.
pub proof fn with_entry_at(
    entries: Seq<(Seq<char>, AnnotationModel)>,
    name: Seq<char>,
    value: AnnotationModel,
    at: int,
)
    requires
        0 <= at <= entries.len(),
        forall|k: int| 0 <= k < at ==> #[trigger] entries[k].0 != name,
        at < entries.len() ==> entries[at].0 == name,
    ensures
        with_entry(entries, name, value) == if at < entries.len() {
            entries.update(at, (name, value))
        } else {
            entries.push((name, value))
        },
    decreases entries.len(),
{
    if entries.len() == 0 {
        assert(seq![(name, value)] =~= entries.push((name, value)));
    } else if at == 0 {
        assert(seq![(name, value)] + entries.drop_first() =~= entries.update(0, (name, value)));
    } else {
        let rest = entries.drop_first();
        assert forall|k: int| 0 <= k < at - 1 implies #[trigger] rest[k].0 != name by {
            assert(rest[k] == entries[k + 1]);
        }
        with_entry_at(rest, name, value, at - 1);
        assert(entries[0].0 != name);
        if at < entries.len() {
            assert(seq![entries[0]] + rest.update(at - 1, (name, value)) =~= entries.update(
                at,
                (name, value),
            ));
        } else {
            assert(seq![entries[0]] + rest.push((name, value)) =~= entries.push((name, value)));
        }
    }
}

/// Adds a named annotation; a name that is there already gets the new value.
pub fn set_entry(entries: &mut Vec<(String, Annotation)>, name: String, value: Annotation)
    ensures
        entries_model(final(entries)@) == with_entry(entries_model(old(entries)@), name@, value@),
        distinct_names(entries_model(old(entries)@)) ==> distinct_names(
            entries_model(final(entries)@),
        ),
        entries_well_named(entries_model(old(entries)@)) && well_named(value@)
            ==> entries_well_named(entries_model(final(entries)@)),
{
    let ghost before = entries_model(entries@);
    let ghost key = name@;
    let ghost model = value@;
    let mut i: usize = 0;
    while i < entries.len()
        invariant
            i <= entries.len(),
            before == entries_model(entries@),
            before == entries_model(old(entries)@),
            key == name@,
            model == value@,
            forall|k: int| 0 <= k < i ==> #[trigger] before[k].0 != key,
        decreases entries.len() - i,
    {
        if entries[i].0 == name {
            proof {
                with_entry_at(before, key, model, i as int);
            }
            entries.set(i, (name, value));
            assert(entries_model(entries@) =~= before.update(i as int, (key, model)));
            return ;
        }
        i += 1;
    }
    proof {
        with_entry_at(before, key, model, i as int);
    }
    entries.push((name, value));
    assert(entries_model(entries@) =~= before.push((key, model)));
}

} // verus!
