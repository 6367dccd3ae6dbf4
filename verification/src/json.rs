//! JSON values, as far as requests and replies are made of them.
use vstd::prelude::*;

use crate::text::{same_text, views};

verus! {

/// A JSON value. A number is kept as it is written.
#[derive(Debug)]
pub enum Json {
    Null,
    Bool(bool),
    Number(String),
    Text(String),
    Array(Vec<Json>),
    Object(Vec<(String, Json)>),
}

/// What a [`Json`] value holds.
pub enum Data {
    Null,
    Bool(bool),
    Number(Seq<char>),
    Text(Seq<char>),
    Array(Seq<Data>),
    Object(Seq<(Seq<char>, Data)>),
}

/// What a value holds.
pub open spec fn data(j: Json) -> Data
    decreases j,
{
    match j {
        Json::Null => Data::Null,
        Json::Bool(b) => Data::Bool(b),
        Json::Number(n) => Data::Number(n@),
        Json::Text(t) => Data::Text(t@),
        Json::Array(v) => Data::Array(
            Seq::new(
                v@.len(),
                |i: int|
                    if 0 <= i < v@.len() {
                        data(v@[i])
                    } else {
                        Data::Null
                    },
            ),
        ),
        Json::Object(v) => Data::Object(
            Seq::new(
                v@.len(),
                |i: int|
                    if 0 <= i < v@.len() {
                        (v@[i].0@, data(v@[i].1))
                    } else {
                        (seq![], Data::Null)
                    },
            ),
        ),
    }
}

impl View for Json {
    type V = Data;

    open spec fn view(&self) -> Data {
        data(*self)
    }
}

/// What the fields of an object hold.
pub open spec fn fields(v: Seq<(String, Json)>) -> Seq<(Seq<char>, Data)> {
    v.map_values(|f: (String, Json)| (f.0@, f.1@))
}

/// What the items of an array hold.
pub open spec fn items(v: Seq<Json>) -> Seq<Data> {
    v.map_values(|j: Json| j@)
}

/// The views of arrays and objects, item by item.
pub proof fn lemma_view(j: Json)
    ensures
        j matches Json::Array(v) ==> j@ == Data::Array(items(v@)),
        j matches Json::Object(v) ==> j@ == Data::Object(fields(v@)),
{
    match j {
        Json::Array(v) => {
            assert(j@->Array_0 =~= items(v@));
        },
        Json::Object(v) => {
            assert(j@->Object_0 =~= fields(v@));
        },
        _ => {},
    }
}

/// The value of the first field with the given name.
pub open spec fn lookup(f: Seq<(Seq<char>, Data)>, name: Seq<char>) -> Option<Data>
    decreases f.len(),
{
    if f.len() == 0 {
        None
    } else if f[0].0 == name {
        Some(f[0].1)
    } else {
        lookup(f.drop_first(), name)
    }
}

/// The texts among the items of an array, in order.
pub open spec fn texts_in(v: Seq<Data>) -> Seq<Seq<char>>
    decreases v.len(),
{
    if v.len() == 0 {
        seq![]
    } else {
        match v.last() {
            Data::Text(t) => texts_in(v.drop_last()).push(t),
            _ => texts_in(v.drop_last()),
        }
    }
}

/// The texts of the array that an object holds under a name; none where it is
/// not an object, or holds no array there.
pub open spec fn texts_under(d: Data, name: Seq<char>) -> Seq<Seq<char>> {
    match d {
        Data::Object(f) => match lookup(f, name) {
            Some(Data::Array(v)) => texts_in(v),
            _ => seq![],
        },
        _ => seq![],
    }
}

/// An array of texts.
pub open spec fn text_array(v: Seq<Seq<char>>) -> Data {
    Data::Array(v.map_values(|t: Seq<char>| Data::Text(t)))
}

impl Json {
    /// The value of a field.
    pub fn get(&self, name: &str) -> (value: Option<&Json>)
        ensures
            match (value, self@) {
                (Some(v), Data::Object(f)) => lookup(f, name@) == Some(v@),
                (None, Data::Object(f)) => lookup(f, name@) is None,
                (Some(_), _) => false,
                (None, _) => true,
            },
    {
        proof {
            lemma_view(*self);
        }
        match self {
            Json::Object(v) => {
                let ghost all = fields(v@);
                let mut i: usize = 0;
                assert(all.skip(0) =~= all);
                while i < v.len()
                    invariant
                        0 <= i <= v@.len(),
                        all == fields(v@),
                        self@ == Data::Object(all),
                        lookup(all, name@) == lookup(all.skip(i as int), name@),
                    decreases v@.len() - i,
                {
                    assert(all.skip(i as int)[0] == (v@[i as int].0@, v@[i as int].1@));
                    if same_text(v[i].0.as_str(), name) {
                        return Some(&v[i].1);
                    }
                    assert(all.skip(i as int).drop_first() =~= all.skip(i as int + 1));
                    i = i + 1;
                }
                None
            },
            _ => None,
        }
    }

    /// The texts of the array under a name. What is not a text is passed over.
    pub fn texts(&self, name: &str) -> (out: Vec<String>)
        ensures
            views(out@) == texts_under(self@, name@),
    {
        let mut out: Vec<String> = Vec::new();
        assert(views(out@) =~= seq![]);
        match self.get(name) {
            Some(value) => {
                proof {
                    lemma_view(*value);
                }
                match value {
                    Json::Array(v) => {
                        let ghost all = items(v@);
                        let mut i: usize = 0;
                        assert(texts_in(all.take(0)) =~= seq![]);
                        while i < v.len()
                            invariant
                                0 <= i <= v@.len(),
                                all == items(v@),
                                views(out@) == texts_in(all.take(i as int)),
                            decreases v@.len() - i,
                        {
                            let ghost got = views(out@);
                            proof {
                                assert(all.take(i as int + 1).drop_last() =~= all.take(i as int));
                                assert(all.take(i as int + 1).last() == v@[i as int]@);
                            }
                            match &v[i] {
                                Json::Text(t) => {
                                    out.push(t.as_str().to_owned());
                                    assert(views(out@) =~= got.push(t@));
                                },
                                _ => {},
                            }
                            i = i + 1;
                        }
                        assert(all.take(all.len() as int) =~= all);
                        out
                    },
                    _ => out,
                }
            },
            None => out,
        }
    }

    /// A text.
    pub fn text(t: &str) -> (j: Json)
        ensures
            j@ == Data::Text(t@),
    {
        Json::Text(t.to_owned())
    }

    /// An array of texts.
    pub fn text_list(v: &Vec<String>) -> (j: Json)
        ensures
            j@ == text_array(views(v@)),
    {
        let mut out: Vec<Json> = Vec::new();
        let mut i: usize = 0;
        while i < v.len()
            invariant
                0 <= i <= v@.len(),
                out@.len() == i,
                forall|k: int| 0 <= k < i ==> (#[trigger] out@[k])@ == Data::Text(v@[k]@),
            decreases v@.len() - i,
        {
            out.push(Json::text(v[i].as_str()));
            i = i + 1;
        }
        let j = Json::Array(out);
        proof {
            lemma_view(j);
            assert(items(out@) =~= views(v@).map_values(|t: Seq<char>| Data::Text(t)));
        }
        j
    }

    /// An array of one text.
    pub fn one_text(t: &str) -> (j: Json)
        ensures
            j@ == text_array(seq![t@]),
    {
        let mut v: Vec<String> = Vec::new();
        v.push(t.to_owned());
        assert(views(v@) =~= seq![t@]);
        Json::text_list(&v)
    }
}

/// An object under construction.
pub struct Fields {
    fields: Vec<(String, Json)>,
}

impl View for Fields {
    type V = Seq<(Seq<char>, Data)>;

    closed spec fn view(&self) -> Seq<(Seq<char>, Data)> {
        fields(self.fields@)
    }
}

impl Fields {
    /// No fields.
    pub fn new() -> (f: Fields)
        ensures
            f@ == Seq::<(Seq<char>, Data)>::empty(),
    {
        let f = Fields { fields: Vec::new() };
        assert(f@ =~= Seq::<(Seq<char>, Data)>::empty());
        f
    }

    /// One field more.
    pub fn with(self, name: &str, value: Json) -> (f: Fields)
        ensures
            f@ == self@.push((name@, value@)),
    {
        let mut v = self.fields;
        v.push((name.to_owned(), value));
        let f = Fields { fields: v };
        assert(f@ =~= self@.push((name@, value@)));
        f
    }

    /// The object.
    pub fn done(self) -> (j: Json)
        ensures
            j@ == Data::Object(self@),
    {
        let j = Json::Object(self.fields);
        proof {
            lemma_view(j);
        }
        j
    }
}

/// A field is found under its name: it is the first of that name. Where there is
/// none of that name, nothing is found.
pub proof fn law_lookup(f: Seq<(Seq<char>, Data)>, name: Seq<char>)
    ensures
        match lookup(f, name) {
            Some(d) => exists|i: int|
                0 <= i < f.len() && #[trigger] f[i] == (name, d) && forall|j: int|
                    0 <= j < i ==> (#[trigger] f[j]).0 != name,
            None => forall|i: int| 0 <= i < f.len() ==> (#[trigger] f[i]).0 != name,
        },
    decreases f.len(),
{
    if f.len() > 0 {
        if f[0].0 == name {
            assert(f[0] == (name, f[0].1));
        } else {
            let rest = f.drop_first();
            law_lookup(rest, name);
            match lookup(rest, name) {
                Some(d) => {
                    let i = choose|i: int|
                        0 <= i < rest.len() && #[trigger] rest[i] == (name, d) && forall|j: int|
                            0 <= j < i ==> (#[trigger] rest[j]).0 != name;
                    assert(f[i + 1] == (name, d));
                    assert forall|j: int| 0 <= j < i + 1 implies (#[trigger] f[j]).0 != name by {
                        if j > 0 {
                            assert(rest[j - 1] == f[j]);
                        }
                    }
                },
                None => {
                    assert forall|i: int| 0 <= i < f.len() implies (#[trigger] f[i]).0 != name by {
                        if i > 0 {
                            assert(rest[i - 1] == f[i]);
                        }
                    }
                },
            }
        }
    }
}

/// The texts of an array are its items that are texts, as they are and in order.
pub proof fn law_texts_in(v: Seq<Data>)
    ensures
        texts_in(v) == v.filter(|d: Data| d is Text).map_values(|d: Data| d->Text_0),
{
    let keep = |d: Data| d is Text;
    let text = |d: Data| d->Text_0;
    lemma_texts_in(v, keep, text);
}

/// The texts of an array, item by item.
proof fn lemma_texts_in(
    v: Seq<Data>,
    keep: spec_fn(Data) -> bool,
    text: spec_fn(Data) -> Seq<char>,
)
    requires
        forall|d: Data| #[trigger] keep(d) <==> d is Text,
        forall|d: Data| #[trigger] text(d) == d->Text_0,
    ensures
        texts_in(v) == v.filter(keep).map_values(text),
    decreases v.len(),
{
    reveal(Seq::filter);
    let kept = v.filter(keep);
    if v.len() == 0 {
        assert(kept.map_values(text) =~= seq![]);
    } else {
        lemma_texts_in(v.drop_last(), keep, text);
        let before = v.drop_last().filter(keep);
        if keep(v.last()) {
            assert(kept.map_values(text) =~= before.map_values(text).push(text(v.last())));
        }
    }
}

} // verus!
