//! Edits to a query's set of scoring terms: terms added to, or replacing,
//! the analyzed query terms.
use vstd::prelude::*;

verus! {

/// An edit of the scoring-term set.
#[derive(Debug, Default, PartialEq, Eq)]
pub enum TermSetEdit {
    /// No edit.
    #[default]
    Unchanged,
    Add(Vec<String>),
    Replace(Vec<String>),
}

/// Why an edit is refused.
#[derive(Debug, Clone, Copy, PartialEq, Eq, Structural)]
pub enum TermSetEditError {
    /// Both an addition and a replacement were given.
    ConflictingEdits,
}

impl TermSetEditError {
    /// The error's message.
    pub fn message(&self) -> (r: String)
        ensures
            r@ == "term_add and term_replace cannot both be non-NULL"@,
    {
        String::from_str("term_add and term_replace cannot both be non-NULL")
    }
}

/// The model of an edit: the kind and the terms' texts.
pub enum EditModel {
    Unchanged,
    Add(Seq<Seq<char>>),
    Replace(Seq<Seq<char>>),
}

/// The texts of a list of strings.
pub open spec fn texts(v: Seq<String>) -> Seq<Seq<char>> {
    v.map_values(|s: String| s@)
}

/// The edit of kind `replace` over `terms`; no terms make no edit.
pub open spec fn normalized(replace: bool, terms: Seq<Seq<char>>) -> EditModel {
    if terms.len() == 0 {
        EditModel::Unchanged
    } else if replace {
        EditModel::Replace(terms)
    } else {
        EditModel::Add(terms)
    }
}

/// The lists of `outs` one after another.
pub open spec fn flatten(outs: Seq<Seq<Seq<char>>>) -> Seq<Seq<char>>
    decreases outs.len(),
{
    if outs.len() == 0 {
        Seq::empty()
    } else {
        flatten(outs.drop_last()) + outs.last()
    }
}

/// The texts of each returned list.
pub open spec fn outputs(results: Seq<Vec<String>>) -> Seq<Seq<Seq<char>>> {
    results.map_values(|v: Vec<String>| texts(v@))
}

impl TermSetEdit {
    /// The edit's model.
    pub open spec fn model(&self) -> EditModel {
        match self {
            TermSetEdit::Unchanged => EditModel::Unchanged,
            TermSetEdit::Add(t) => EditModel::Add(texts(t@)),
            TermSetEdit::Replace(t) => EditModel::Replace(texts(t@)),
        }
    }

    /// The edit given by the optional `add` and `replace` arrays: at most one
    /// may be present, and an empty array makes no edit.
    pub fn from_bound_arrays(add: Option<Vec<String>>, replace: Option<Vec<String>>) -> (r: Result<Self, TermSetEditError>)
        ensures
            (add is Some && replace is Some) <==> r == Err::<Self, TermSetEditError>(TermSetEditError::ConflictingEdits),
            r matches Ok(e) ==> e.model() == match (add, replace) {
                (Some(t), None) => normalized(false, texts(t@)),
                (None, Some(t)) => normalized(true, texts(t@)),
                _ => EditModel::Unchanged,
            },
    {
        match (add, replace) {
            (Some(_), Some(_)) => Err(TermSetEditError::ConflictingEdits),
            (Some(terms), None) => Ok(Self::normalize(false, terms)),
            (None, Some(terms)) => Ok(Self::normalize(true, terms)),
            (None, None) => Ok(Self::Unchanged),
        }
    }

    /// Runs `analyze` on every raw element, in order, and makes an edit of
    /// the same kind from all the terms it returns.
    pub fn analyzed_with<F>(&self, analyze: F) -> (r: Self)
        where
            F: Fn(String) -> Vec<String>,
        requires
            forall|s: String| #[trigger] call_requires(analyze, (s,)),
        ensures
            match self {
                TermSetEdit::Unchanged => r.model() == EditModel::Unchanged,
                TermSetEdit::Add(raw) | TermSetEdit::Replace(raw) => exists|results: Seq<Vec<String>>| {
                    &&& results.len() == raw@.len()
                    &&& forall|k: int| 0 <= k < raw@.len() ==> call_ensures(analyze, (raw@[k],), #[trigger] results[k])
                    &&& r.model() == normalized(*self is Replace, #[trigger] flatten(outputs(results)))
                },
            },
    {
        let (replace, raw) = match self {
            TermSetEdit::Unchanged => return TermSetEdit::Unchanged,
            TermSetEdit::Add(raw) => (false, raw),
            TermSetEdit::Replace(raw) => (true, raw),
        };
        let mut terms: Vec<String> = Vec::new();
        let ghost mut results: Seq<Vec<String>> = Seq::empty();
        let mut i: usize = 0;
        while i < raw.len()
            invariant
                i <= raw@.len(),
                results.len() == i,
                forall|s: String| #[trigger] call_requires(analyze, (s,)),
                forall|k: int| 0 <= k < i ==> call_ensures(analyze, (raw@[k],), #[trigger] results[k]),
                texts(terms@) == flatten(outputs(results)),
            decreases raw@.len() - i,
        {
            let element: String = raw[i].clone();
            let produced = analyze(element);
            let ghost before = terms@;
            let mut j: usize = 0;
            while j < produced.len()
                invariant
                    j <= produced@.len(),
                    texts(terms@) == texts(before) + texts(produced@).take(j as int),
                decreases produced@.len() - j,
            {
                let ghost prior = terms@;
                let t = produced[j].clone();
                terms.push(t);
                proof {
                    assert(texts(terms@) =~= texts(prior).push(t@));
                    assert(texts(produced@).take(j + 1) =~= texts(produced@).take(j as int).push(produced@[j as int]@));
                    assert(texts(terms@) =~= texts(before) + texts(produced@).take(j + 1));
                }
                j += 1;
            }
            proof {
                assert(texts(produced@).take(produced@.len() as int) =~= texts(produced@));
                let r2 = results.push(produced);
                assert(outputs(r2) =~= outputs(results).push(texts(produced@)));
                assert(outputs(r2).drop_last() =~= outputs(results));
                assert forall|k: int| 0 <= k < i + 1 implies call_ensures(analyze, (raw@[k],), #[trigger] r2[k]) by {
                    if k < i {
                        assert(r2[k] == results[k]);
                    }
                }
                results = r2;
            }
            i += 1;
        }
        Self::normalize(replace, terms)
    }

    /// The edit of kind `replace` over `terms`; no terms make no edit.
    fn normalize(replace: bool, terms: Vec<String>) -> (r: Self)
        ensures
            r.model() == normalized(replace, texts(terms@)),
    {
        if terms.len() == 0 {
            TermSetEdit::Unchanged
        } else if replace {
            TermSetEdit::Replace(terms)
        } else {
            TermSetEdit::Add(terms)
        }
    }
}

} // verus!
