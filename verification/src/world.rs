//! What evaluation needs to know of the world: the environment, and what has been
//! found out about the file system.
use vstd::prelude::*;
use crate::engine_model::{path_exists, path_is_dir, FactsView, WorldView};
use crate::error::{outcome, Error};
use crate::strmap::{dict, lemma_dict_inserted, StrMap};
use crate::shell_parser::home_or_default;
use crate::text::{str_eq, texts};

verus! {

/// What is known of the file system.
pub struct FileFacts {
    present: StrMap<bool>,
    directory: StrMap<bool>,
}

impl View for FileFacts {
    type V = FactsView;

    closed spec fn view(&self) -> FactsView {
        FactsView { present: dict(self.present@), directory: dict(self.directory@) }
    }
}

impl FileFacts {
    /// Nothing is known.
    pub fn new() -> (r: FileFacts)
        ensures
            r@.present == Map::<Seq<char>, bool>::empty(),
            r@.directory == Map::<Seq<char>, bool>::empty(),
    {
        let r = FileFacts { present: StrMap::new(), directory: StrMap::new() };
        assert(r@.present =~= Map::<Seq<char>, bool>::empty());
        assert(r@.directory =~= Map::<Seq<char>, bool>::empty());
        r
    }

    /// Notes whether a path exists or, with `directory`, whether it is a directory.
    pub fn learn(&mut self, path: String, directory: bool, answer: bool)
        ensures
            final(self)@ == if directory {
                FactsView {
                    present: old(self)@.present,
                    directory: old(self)@.directory.insert(path@, answer),
                }
            } else {
                FactsView {
                    present: old(self)@.present.insert(path@, answer),
                    directory: old(self)@.directory,
                }
            },
    {
        if directory {
            proof {
                lemma_dict_inserted(self.directory@, path@, answer);
            }
            self.directory.insert(path, answer);
        } else {
            proof {
                lemma_dict_inserted(self.present@, path@, answer);
            }
            self.present.insert(path, answer);
        }
    }

    /// Whether a path exists.
    pub fn is_present(&self, path: &str) -> (r: Result<bool, Error>)
        ensures
            outcome(r) == path_exists(self@, path@),
    {
        match self.present.get(path) {
            Some(answer) => Ok(*answer),
            None => Err(Error::Unprobed { path: path.to_owned(), directory: false }),
        }
    }

    /// Whether a path is a directory.
    pub fn is_dir(&self, path: &str) -> (r: Result<bool, Error>)
        ensures
            outcome(r) == path_is_dir(self@, path@),
    {
        match self.directory.get(path) {
            Some(answer) => Ok(*answer),
            None => Err(Error::Unprobed { path: path.to_owned(), directory: true }),
        }
    }
}

/// What evaluation takes from outside.
#[derive(Clone, Copy)]
pub struct World<'a> {
    /// The home directory.
    pub home: &'a str,
    /// The environment, as `VAR=value`.
    pub env: &'a [String],
    pub files: &'a FileFacts,
}

impl<'a> View for World<'a> {
    type V = WorldView;

    open spec fn view(&self) -> WorldView {
        WorldView { home: self.home@, env: texts(self.env@), files: self.files@ }
    }
}

/// An environment variable as `VAR=value`.
pub open spec fn assignment(var: (String, String)) -> Seq<char> {
    var.0@ + "="@ + var.1@
}

/// The environment as `VAR=value` texts.
pub fn env_strings(vars: &[(String, String)]) -> (r: Vec<String>)
    ensures
        texts(r@) == Seq::new(vars@.len(), |i: int| assignment(vars@[i])),
{
    let mut out: Vec<String> = Vec::new();
    let mut i: usize = 0;
    while i < vars.len()
        invariant
            i <= vars@.len(),
            out@.len() == i,
            forall|k: int| 0 <= k < i ==> (#[trigger] out@[k])@ == assignment(vars@[k]),
        decreases vars@.len() - i,
    {
        let mut text = vars[i].0.clone();
        text.push_str("=");
        text.push_str(&vars[i].1);
        out.push(text);
        i = i + 1;
    }
    assert(texts(out@) =~= Seq::new(vars@.len(), |i: int| assignment(vars@[i])));
    out
}

/// The value of the first variable of a name, from number `i` on.
pub open spec fn var_from(vars: Seq<(String, String)>, name: Seq<char>, i: int) -> Option<Seq<char>>
    decreases vars.len() - i,
{
    if i < 0 || i >= vars.len() {
        None
    } else if vars[i].0@ == name {
        Some(vars[i].1@)
    } else {
        var_from(vars, name, i + 1)
    }
}

/// The home directory: what the environment says, or else `/root`.
pub fn home_of(vars: &[(String, String)]) -> (r: String)
    ensures
        r@ == match var_from(vars@, "HOME"@, 0) {
            Some(home) => home,
            None => "/root"@,
        },
{
    let mut i: usize = 0;
    while i < vars.len()
        invariant
            i <= vars@.len(),
            var_from(vars@, "HOME"@, i as int) == var_from(vars@, "HOME"@, 0),
        decreases vars@.len() - i,
    {
        if str_eq(&vars[i].0, "HOME") {
            return home_or_default(Some(vars[i].1.clone()));
        }
        i = i + 1;
    }
    home_or_default(None)
}

} // verus!
