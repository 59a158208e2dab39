//! The rules of a project, in the files of its `.permiter` directory.
use vstd::prelude::*;
use crate::config::{
    compile_rules, rule_views, rules_pattern_fault, rules_use, RuleConfig, RuleView,
};
use crate::dsl::parse_local_rules;
use crate::dsl_grammar::{all_local, local_rules_of};
use crate::engine_model::{path_exists, path_is_dir, FactsView, LocalView};
use crate::error::{Error, ErrorView};
use crate::paths::{extension, has_perm_extension, join, join_path, parent, parent_of};
use crate::patterns::RegexCache;
use crate::text::{chars_of, texts};
use crate::world::FileFacts;

verus! {

/// The rules of a project.
#[derive(Debug)]
pub struct LocalRuleSet {
    /// The `.permiter` directory that the rules come from.
    pub source_dir: String,
    /// The rules, in order. They allow, deny or pass through.
    pub rules: Vec<RuleConfig>,
    pub regex_cache: RegexCache,
}

impl View for LocalRuleSet {
    type V = LocalView;

    open spec fn view(&self) -> LocalView {
        LocalView { source_dir: self.source_dir@, rules: rule_views(self.rules@) }
    }
}

impl LocalRuleSet {
    /// No rule takes an action that only the configuration may take.
    pub open spec fn is_flat(self) -> bool {
        all_local(self@.rules)
    }

    /// The cache holds the patterns of the rules, and no others.
    pub open spec fn is_compiled(self) -> bool {
        forall|p: Seq<char>|
            #![trigger self.regex_cache.holds(p)]
            self.regex_cache.holds(p) <==> rules_use(
                self@.rules,
                p,
                self.rules@.len() as int,
            )
    }
}

impl Clone for LocalRuleSet {
    fn clone(&self) -> (r: LocalRuleSet)
        ensures
            r@ == self@,
            forall|p: Seq<char>| r.regex_cache.holds(p) == self.regex_cache.holds(p),
    {
        let mut rules: Vec<RuleConfig> = Vec::new();
        let mut i: usize = 0;
        while i < self.rules.len()
            invariant
                i <= self.rules@.len(),
                rules@.len() == i,
                forall|k: int| 0 <= k < i ==> (#[trigger] rules@[k])@ == self.rules@[k]@,
            decreases self.rules@.len() - i,
        {
            rules.push(self.rules[i].clone());
            i = i + 1;
        }
        let r = LocalRuleSet {
            source_dir: self.source_dir.clone(),
            rules,
            regex_cache: self.regex_cache.clone(),
        };
        assert(r@.rules =~= self@.rules);
        r
    }
}

/// The `.permiter` directory of a project: the nearest one in `dir` or a directory above
/// it, up to the nearest one that holds `.git`.
pub open spec fn local_dir_above(files: FactsView, dir: Seq<char>) -> Result<
    Option<Seq<char>>,
    ErrorView,
>
    decreases dir.len(),
{
    match path_is_dir(files, join_path(dir, ".permiter"@)) {
        Ok(true) => Ok(Some(join_path(dir, ".permiter"@))),
        Ok(false) => match path_exists(files, join_path(dir, ".git"@)) {
            Ok(false) => match parent(dir) {
                Some(up) => if up.len() < dir.len() {
                    local_dir_above(files, up)
                } else {
                    Ok(None)
                },
                None => Ok(None),
            },
            Ok(true) => Ok(None),
            Err(e) => Err(e),
        },
        Err(e) => Err(e),
    }
}

/// Looks for the `.permiter` directory of a project, from `start_dir` up to the nearest
/// directory that holds `.git`. Where `files` says nothing of a path that matters, the
/// error is [`Error::Unprobed`].
pub fn discover_local_dir(start_dir: &str, files: &FileFacts) -> (r: Result<Option<String>, Error>)
    ensures
        match r {
            Ok(Some(dir)) => local_dir_above(files@, start_dir@) == Ok::<
                Option<Seq<char>>,
                ErrorView,
            >(Some(dir@)),
            Ok(None) => local_dir_above(files@, start_dir@) == Ok::<Option<Seq<char>>, ErrorView>(
                None,
            ),
            Err(e) => local_dir_above(files@, start_dir@) == Err::<Option<Seq<char>>, ErrorView>(
                e@,
            ),
        },
{
    let mut dir = start_dir.to_owned();
    loop
        invariant
            local_dir_above(files@, dir@) == local_dir_above(files@, start_dir@),
        decreases dir@.len(),
    {
        let candidate = join(&dir, ".permiter");
        match files.is_dir(&candidate) {
            Ok(true) => {
                return Ok(Some(candidate));
            },
            Ok(false) => {},
            Err(e) => {
                return Err(e);
            },
        }
        match files.is_present(&join(&dir, ".git")) {
            Ok(false) => {},
            Ok(true) => {
                return Ok(None);
            },
            Err(e) => {
                return Err(e);
            },
        }
        match parent_of(&dir) {
            Some(up) => {
                dir = up;
            },
            None => {
                return Ok(None);
            },
        }
    }
}

/// Whether a text stands before another in alphabetical order, or is the same.
pub open spec fn at_most(a: Seq<char>, b: Seq<char>) -> bool
    decreases a.len(),
{
    if a.len() == 0 {
        true
    } else if b.len() == 0 {
        false
    } else if a[0] == b[0] {
        at_most(a.skip(1), b.skip(1))
    } else {
        a[0] < b[0]
    }
}

/// Of two texts, one stands before the other.
pub proof fn lemma_at_most_total(a: Seq<char>, b: Seq<char>)
    ensures
        at_most(a, b) || at_most(b, a),
    decreases a.len(),
{
    if a.len() > 0 && b.len() > 0 && a[0] == b[0] {
        lemma_at_most_total(a.skip(1), b.skip(1));
    }
}

/// What stands before a text stands before all that it stands before.
pub proof fn lemma_at_most_transitive(a: Seq<char>, b: Seq<char>, c: Seq<char>)
    requires
        at_most(a, b),
        at_most(b, c),
    ensures
        at_most(a, c),
    decreases a.len(),
{
    if a.len() > 0 && b.len() > 0 && c.len() > 0 && a[0] == b[0] && b[0] == c[0] {
        lemma_at_most_transitive(a.skip(1), b.skip(1), c.skip(1));
    }
}

/// Two texts that stand before each other are the same.
pub proof fn lemma_at_most_antisymmetric(a: Seq<char>, b: Seq<char>)
    requires
        at_most(a, b),
        at_most(b, a),
    ensures
        a == b,
    decreases a.len(),
{
    if a.len() > 0 && b.len() > 0 {
        lemma_at_most_antisymmetric(a.skip(1), b.skip(1));
        assert(a =~= seq![a[0]] + a.skip(1));
        assert(b =~= seq![b[0]] + b.skip(1));
    } else {
        assert(a =~= b);
    }
}

/// Whether texts stand in alphabetical order.
pub open spec fn in_order(names: Seq<Seq<char>>) -> bool {
    forall|i: int, j: int|
        0 <= i < j < names.len() ==> at_most(#[trigger] names[i], #[trigger] names[j])
}

/// Names have one alphabetical order: however the files of a directory are listed, the
/// rules in them come in the same order.
pub proof fn alphabetical_order_is_unique(a: Seq<Seq<char>>, b: Seq<Seq<char>>)
    requires
        in_order(a),
        in_order(b),
        a.to_multiset() == b.to_multiset(),
    ensures
        a == b,
{
    let leq = |x: Seq<char>, y: Seq<char>| at_most(x, y);
    assert forall|x: Seq<char>, y: Seq<char>| #[trigger] leq(x, y) || #[trigger] leq(y, x) by {
        lemma_at_most_total(x, y);
    }
    assert forall|x: Seq<char>| #[trigger] leq(x, x) by {
        lemma_at_most_total(x, x);
    }
    assert forall|x: Seq<char>, y: Seq<char>| #[trigger] leq(x, y) && #[trigger] leq(y, x) implies x
        == y by {
        lemma_at_most_antisymmetric(x, y);
    }
    assert forall|x: Seq<char>, y: Seq<char>, z: Seq<char>| #[trigger] leq(x, y) && #[trigger] leq(
        y,
        z,
    ) implies leq(x, z) by {
        lemma_at_most_transitive(x, y, z);
    }
    assert(vstd::relations::sorted_by(a, leq));
    assert(vstd::relations::sorted_by(b, leq));
    vstd::seq_lib::lemma_sorted_unique(a, b, leq);
}

/// Whether a file holds rules, by its name.
pub open spec fn is_rules_file(name: Seq<char>) -> bool {
    extension(name) == Some("perm"@)
}

fn stands_before(a: &str, b: &str) -> (r: bool)
    ensures
        r == at_most(a@, b@),
{
    let ca = chars_of(a);
    let cb = chars_of(b);
    let mut i: usize = 0;
    assert(ca@.skip(0) =~= a@);
    assert(cb@.skip(0) =~= b@);
    while i < ca.len() && i < cb.len()
        invariant
            i <= ca@.len(),
            i <= cb@.len(),
            at_most(ca@.skip(i as int), cb@.skip(i as int)) == at_most(a@, b@),
        decreases ca@.len() - i,
    {
        if ca[i] != cb[i] {
            return ca[i] < cb[i];
        }
        assert(ca@.skip(i as int).skip(1) =~= ca@.skip(i + 1));
        assert(cb@.skip(i as int).skip(1) =~= cb@.skip(i + 1));
        i = i + 1;
    }
    i >= ca.len()
}

/// Of the names of the files in a directory, those of files that hold rules, in
/// alphabetical order.
pub fn rules_files(names: Vec<String>) -> (r: Vec<String>)
    ensures
        in_order(texts(r@)),
        texts(r@).to_multiset() == texts(names@).filter(
            |n: Seq<char>| is_rules_file(n),
        ).to_multiset(),
{
    let ghost keep = |n: Seq<char>| is_rules_file(n);
    let ghost all = texts(names@);
    let mut out: Vec<String> = Vec::new();
    let mut i: usize = 0;
    proof {
        assert(all.take(0).filter(keep) =~= texts(out@)) by {
            reveal(Seq::filter);
        }
    }
    while i < names.len()
        invariant
            i <= names@.len(),
            all == texts(names@),
            keep == (|n: Seq<char>| is_rules_file(n)),
            in_order(texts(out@)),
            texts(out@).to_multiset() == all.take(i as int).filter(keep).to_multiset(),
        decreases names@.len() - i,
    {
        let ghost before = texts(out@);
        let name = &names[i];
        proof {
            assert(all.take(i + 1) =~= all.take(i as int).push(name@));
            lemma_filter_push(all.take(i as int), name@, keep);
        }
        if has_perm_extension(name) {
            let mut k: usize = 0;
            while k < out.len() && stands_before(&out[k], name)
                invariant
                    k <= out@.len(),
                    forall|j: int| 0 <= j < k ==> at_most(#[trigger] texts(out@)[j], name@),
                decreases out@.len() - k,
            {
                assert(texts(out@)[k as int] == out@[k as int]@);
                k = k + 1;
            }
            out.insert(k, name.clone());
            proof {
                lemma_inserted_in_order(before, k as int, name@);
                assert(texts(out@) =~= before.insert(k as int, name@));
                lemma_insert_multiset(before, k as int, name@);
                all.take(i as int).filter(keep).to_multiset_ensures();
            }
        }
        i = i + 1;
    }
    assert(all.take(all.len() as int) =~= all);
    out
}

proof fn lemma_filter_push(s: Seq<Seq<char>>, a: Seq<char>, keep: spec_fn(Seq<char>) -> bool)
    ensures
        s.push(a).filter(keep) == if keep(a) {
            s.filter(keep).push(a)
        } else {
            s.filter(keep)
        },
{
    reveal(Seq::filter);
    assert(s.push(a).drop_last() =~= s);
}

proof fn lemma_insert_multiset(s: Seq<Seq<char>>, k: int, a: Seq<char>)
    requires
        0 <= k <= s.len(),
    ensures
        s.insert(k, a).to_multiset() == s.to_multiset().insert(a),
{
    let t = s.insert(k, a);
    t.to_multiset_ensures();
    assert(t.remove(k) =~= s);
    assert(t[k] == a);
    assert(t.contains(a));
    assert(t.to_multiset().remove(a).insert(a) =~= t.to_multiset());
}

proof fn lemma_inserted_in_order(s: Seq<Seq<char>>, k: int, a: Seq<char>)
    requires
        0 <= k <= s.len(),
        in_order(s),
        forall|j: int| 0 <= j < k ==> at_most(#[trigger] s[j], a),
        k < s.len() ==> !at_most(s[k], a),
    ensures
        in_order(s.insert(k, a)),
{
    let t = s.insert(k, a);
    assert forall|i: int, j: int| 0 <= i < j < t.len() implies at_most(
        #[trigger] t[i],
        #[trigger] t[j],
    ) by {
        let from = |x: int| if x > k { x - 1 } else { x };
        if i == k {
            lemma_at_most_total(s[k], a);
            if j - 1 > k {
                assert(at_most(s[k], s[j - 1]));
                lemma_at_most_transitive(a, s[k], s[j - 1]);
            }
        } else if j == k {
            assert(at_most(s[i], a));
        } else {
            assert(at_most(s[from(i)], s[from(j)]));
        }
    }
}

/// A file that holds rules.
pub struct LocalFile {
    pub path: String,
    pub content: String,
}

/// The rules of files from number `i` on, behind `acc`.
pub open spec fn gathered(files: Seq<LocalFile>, i: int, acc: Seq<RuleView>) -> Result<
    Seq<RuleView>,
    ErrorView,
>
    decreases files.len() - i,
{
    if i < 0 || i >= files.len() {
        Ok(acc)
    } else {
        match local_rules_of(files[i].content@, files[i].path@) {
            Ok(rules) => gathered(files, i + 1, acc + rules),
            Err(e) => Err(e),
        }
    }
}

/// The rules of a project: those of all files, if all of them are in order and all
/// patterns compile.
pub open spec fn project_rules(files: Seq<LocalFile>) -> Result<Seq<RuleView>, ErrorView> {
    match gathered(files, 0, Seq::empty()) {
        Ok(rules) => match rules_pattern_fault(rules, 0) {
            Some(e) => Err(e),
            None => Ok(rules),
        },
        Err(e) => Err(e),
    }
}

/// Reads the rules of a project from the contents of the files of its `.permiter`
/// directory.
pub fn load_local_rules(permiter_dir: &str, files: &[LocalFile]) -> (r: Result<LocalRuleSet, Error>)
    ensures
        match r {
            Ok(set) => {
                &&& set@.source_dir == permiter_dir@
                &&& project_rules(files@) == Ok::<Seq<RuleView>, ErrorView>(set@.rules)
                &&& set.is_flat()
                &&& set.is_compiled()
            },
            Err(e) => project_rules(files@) == Err::<Seq<RuleView>, ErrorView>(e@),
        },
{
    let mut rules: Vec<RuleConfig> = Vec::new();
    assert(rule_views(rules@) =~= Seq::<RuleView>::empty());
    let mut i: usize = 0;
    while i < files.len()
        invariant
            i <= files@.len(),
            gathered(files@, i as int, rule_views(rules@)) == gathered(files@, 0, Seq::empty()),
            all_local(rule_views(rules@)),
        decreases files@.len() - i,
    {
        match parse_local_rules(&files[i].content, &files[i].path) {
            Ok(more) => {
                let mut more = more;
                let ghost first = rule_views(rules@);
                let ghost second = rule_views(more@);
                rules.append(&mut more);
                assert(rule_views(rules@) =~= first + second);
            },
            Err(e) => {
                return Err(e);
            },
        }
        i = i + 1;
    }
    match compile_rules(RegexCache::new(), &rules) {
        Ok(regex_cache) => Ok(
            LocalRuleSet { source_dir: permiter_dir.to_owned(), rules, regex_cache },
        ),
        Err(e) => Err(e),
    }
}

} // verus!
