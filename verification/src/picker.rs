//! The opening screen: the files of a flow, the connection, and the flows that
//! were opened last. Dialogs and files are the caller's.

use crate::config::{
    opt_text, text_entries, text_map, yaml_entries, yaml_to_var_string, yaml_var, EnvConfig,
};
use crate::engine::pair_texts;
use crate::strmap::{ascending, entries_map, lemma_ascending_map, StrMap};
use crate::text::{
    law_pieces_stand_between_separators, lemma_find_from, lemma_split_concat, occurs_at, same_text,
    split, texts, trim, trimmed,
};
use crate::yaml::{yaml_string, yaml_view, YamlView};
use vstd::prelude::*;

verus! {

/// A flow that was opened: its chart, its configuration, and its environment
/// where there was one.
#[derive(Debug)]
pub struct RecentEntry {
    pub flow: String,
    pub cfg: String,
    pub env: Option<String>,
}

/// What a `RecentEntry` holds.
pub struct RecentView {
    pub flow: Seq<char>,
    pub cfg: Seq<char>,
    pub env: Option<Seq<char>>,
}

impl View for RecentEntry {
    type V = RecentView;

    open spec fn view(&self) -> RecentView {
        RecentView { flow: self.flow@, cfg: self.cfg@, env: opt_text(self.env) }
    }
}

/// What a list of opened flows holds.
pub open spec fn recent_views(v: Seq<RecentEntry>) -> Seq<RecentView> {
    Seq::new(v.len(), |i: int| v[i]@)
}

/// The greatest number of flows that are remembered.
pub const RECENT_MAX: usize = 8;

/// The parts that name something: all but empty parts and `.`.
pub open spec fn named_parts(parts: Seq<Seq<char>>) -> Seq<Seq<char>>
    decreases parts.len(),
{
    if parts.len() == 0 {
        seq![]
    } else if parts.last() == ""@ || parts.last() == "."@ {
        named_parts(parts.drop_last())
    } else {
        named_parts(parts.drop_last()).push(parts.last())
    }
}

/// The components of a path whose separator is `/`: the root where the path is
/// absolute, `.` where a relative path begins with it, and the parts that name
/// something. Repeated separators, a separator at the end and every other `.`
/// leave no trace.
pub open spec fn components(path: Seq<char>) -> Seq<Seq<char>> {
    let parts = split(path, '/');
    let head: Seq<Seq<char>> = if path.len() > 0 && path[0] == '/' {
        seq!["/"@]
    } else if parts[0] == "."@ {
        seq!["."@]
    } else {
        seq![]
    };
    head + named_parts(parts)
}

/// Whether two paths have the same components.
pub open spec fn same_path(a: Seq<char>, b: Seq<char>) -> bool {
    components(a) == components(b)
}

/// A path that every platform reads alike: it has no `\`, which separates on some
/// platforms and is part of a name on others, no `:`, which may end the name of a
/// drive, and no `//` at its start, which may begin the name of a host.
pub open spec fn is_plain(path: Seq<char>) -> bool {
    !path.contains('\\') && !path.contains(':') && !"//"@.is_prefix_of(path)
}

/// Whether some platform may take two paths for one.
pub open spec fn may_be_same(a: Seq<char>, b: Seq<char>) -> bool {
    is_plain(a) && is_plain(b) ==> same_path(a, b)
}

/// Whether every platform takes two paths for one.
pub open spec fn surely_same(a: Seq<char>, b: Seq<char>) -> bool {
    a == b || is_plain(a) && is_plain(b) && same_path(a, b)
}

/// Whether some platform may take the files of two entries for the same.
pub open spec fn may_be_same_files(a: RecentView, b: RecentView) -> bool {
    &&& may_be_same(a.flow, b.flow)
    &&& may_be_same(a.cfg, b.cfg)
    &&& match (a.env, b.env) {
        (Some(x), Some(y)) => may_be_same(x, y),
        (None, None) => true,
        _ => false,
    }
}

/// Whether every platform takes the files of two entries for the same.
pub open spec fn surely_same_files(a: RecentView, b: RecentView) -> bool {
    &&& surely_same(a.flow, b.flow)
    &&& surely_same(a.cfg, b.cfg)
    &&& match (a.env, b.env) {
        (Some(x), Some(y)) => surely_same(x, y),
        (None, None) => true,
        _ => false,
    }
}

/// Whether all paths of an entry are plain.
pub open spec fn plain_entry(e: RecentView) -> bool {
    is_plain(e.flow) && is_plain(e.cfg) && (e.env matches Some(p) ==> is_plain(p))
}

/// Whether `same` tells which entries of a list name the files of `e`, by the
/// rules of the platform.
pub open spec fn is_comparison(list: Seq<RecentView>, e: RecentView, same: Seq<bool>) -> bool {
    &&& same.len() == list.len()
    &&& forall|i: int| #![trigger same[i]]
        0 <= i < list.len() ==> {
            &&& same[i] ==> may_be_same_files(list[i], e)
            &&& surely_same_files(list[i], e) ==> same[i]
        }
}

/// Which entries of a list have the components of `e` in all their paths.
pub open spec fn by_components(list: Seq<RecentView>, e: RecentView) -> Seq<bool> {
    Seq::new(
        list.len(),
        |i: int|
            same_path(list[i].flow, e.flow) && same_path(list[i].cfg, e.cfg) && match (
                list[i].env,
                e.env,
            ) {
                (Some(x), Some(y)) => same_path(x, y),
                (None, None) => true,
                _ => false,
            },
    )
}

/// Whether no two entries of a list are the same on every platform.
pub open spec fn distinct(list: Seq<RecentView>) -> bool {
    forall|i: int, j: int|
        0 <= i < list.len() && 0 <= j < list.len() && i != j ==> !#[trigger] surely_same_files(
            list[i],
            list[j],
        )
}

/// A list without the entries that are marked.
pub open spec fn without(list: Seq<RecentView>, marked: Seq<bool>) -> Seq<RecentView>
    decreases list.len(),
{
    if list.len() == 0 {
        seq![]
    } else if marked[list.len() - 1] {
        without(list.drop_last(), marked)
    } else {
        without(list.drop_last(), marked).push(list.last())
    }
}

/// The first entries of a list, as many as are remembered.
pub open spec fn shortened(list: Seq<RecentView>) -> Seq<RecentView> {
    if list.len() <= RECENT_MAX {
        list
    } else {
        list.take(RECENT_MAX as int)
    }
}

/// The list after a flow was opened: that flow comes first, and the entries that
/// are `same` as it are gone.
pub open spec fn remembered(list: Seq<RecentView>, e: RecentView, same: Seq<bool>) -> Seq<
    RecentView,
> {
    shortened(seq![e] + without(list, same))
}

/// Calls the `==` of `std::path::Path`, which compares paths by their components.
/// What separates components and what a path may begin with is the platform's: of
/// two paths that are plain the result is that of `same_path`, a path is the same
/// as itself, and of other paths nothing is claimed.
#[verifier::external_body]
fn same_paths(a: &str, b: &str) -> (r: bool)
    ensures
        r ==> may_be_same(a@, b@),
        surely_same(a@, b@) ==> r,
{
    std::path::Path::new(a) == std::path::Path::new(b)
}

fn same_entry(a: &RecentEntry, b: &RecentEntry) -> (r: bool)
    ensures
        r ==> may_be_same_files(a@, b@),
        surely_same_files(a@, b@) ==> r,
{
    same_paths(a.flow.as_str(), b.flow.as_str()) && same_paths(a.cfg.as_str(), b.cfg.as_str())
        && match (&a.env, &b.env) {
        (Some(x), Some(y)) => same_paths(x.as_str(), y.as_str()),
        (None, None) => true,
        _ => false,
    }
}

/// The list after a flow was opened, where `same` marks the entries that name the
/// same files.
pub fn remember(list: Vec<RecentEntry>, entry: RecentEntry, same: &Vec<bool>) -> (r: Vec<
    RecentEntry,
>)
    requires
        same@.len() == list@.len(),
    ensures
        recent_views(r@) == remembered(recent_views(list@), entry@, same@),
{
    let ghost all = recent_views(list@);
    let ghost e = entry@;
    let ghost mut kept: Seq<RecentView> = seq![];
    let mut out: Vec<RecentEntry> = vec![entry];
    let mut i: usize = 0;
    assert(recent_views(out@) =~= seq![e]);
    assert(shortened(seq![e] + kept) =~= seq![e]);
    for x in it: list
        invariant
            it.seq() == list@,
            all == recent_views(list@),
            same@.len() == list@.len(),
            i == it.index(),
            kept == without(all.take(it.index()), same@),
            recent_views(out@) == shortened(seq![e] + kept),
    {
        let ghost k = it.index();
        proof {
            assert(x@ == all[k]);
            assert(all.take(k + 1).drop_last() =~= all.take(k));
        }
        let ghost before = recent_views(out@);
        if !same[i] {
            if out.len() < RECENT_MAX {
                out.push(x);
                assert(recent_views(out@) =~= before.push(x@));
            }
            proof {
                let more = kept.push(x@);
                if before.len() < RECENT_MAX {
                    assert(seq![e] + more =~= (seq![e] + kept).push(x@));
                } else {
                    assert((seq![e] + more).take(RECENT_MAX as int) =~= shortened(
                        seq![e] + kept,
                    ));
                }
                kept = more;
            }
        }
        assert(i < same.len());
        i += 1;
    }
    assert(all.take(all.len() as int) =~= all);
    out
}

/// The list after a flow was opened. Entries are compared by the rules of the
/// platform; plain paths are compared by their components everywhere.
pub fn push_recent(list: Vec<RecentEntry>, entry: RecentEntry) -> (r: Vec<RecentEntry>)
    ensures
        exists|same: Seq<bool>|
            #[trigger] is_comparison(recent_views(list@), entry@, same) && recent_views(r@)
                == remembered(recent_views(list@), entry@, same),
        plain_entry(entry@) && (forall|i: int|
            0 <= i < list@.len() ==> plain_entry(#[trigger] recent_views(list@)[i]))
            ==> recent_views(r@) == remembered(
            recent_views(list@),
            entry@,
            by_components(recent_views(list@), entry@),
        ),
{
    let ghost all = recent_views(list@);
    let mut same: Vec<bool> = Vec::new();
    for i in 0..list.len()
        invariant
            all == recent_views(list@),
            same@.len() == i,
            forall|k: int| #![trigger same@[k]]
                0 <= k < i ==> {
                    &&& same@[k] ==> may_be_same_files(all[k], entry@)
                    &&& surely_same_files(all[k], entry@) ==> same@[k]
                },
    {
        let s = same_entry(&list[i], &entry);
        assert(all[i as int] == list@[i as int]@);
        same.push(s);
    }
    assert(is_comparison(all, entry@, same@));
    proof {
        if plain_entry(entry@) && (forall|i: int|
            0 <= i < list@.len() ==> plain_entry(#[trigger] all[i])) {
            assert forall|i: int| 0 <= i < all.len() implies same@[i] == by_components(
                all,
                entry@,
            )[i] by {
                assert(plain_entry(all[i]));
            }
            assert(same@ =~= by_components(all, entry@));
        }
    }
    remember(list, entry, &same)
}

proof fn lemma_without(list: Seq<RecentView>, marked: Seq<bool>)
    requires
        marked.len() >= list.len(),
    ensures
        forall|k: int|
            0 <= k < without(list, marked).len() ==> exists|i: int|
                0 <= i < list.len() && !marked[i] && list[i] == #[trigger] without(list, marked)[k],
        distinct(list) ==> distinct(without(list, marked)),
    decreases list.len(),
{
    if list.len() > 0 {
        let n = list.len() - 1;
        let front = list.drop_last();
        let rest = without(front, marked);
        let w = without(list, marked);
        lemma_without(front, marked);
        assert forall|k: int| 0 <= k < w.len() implies exists|i: int|
            0 <= i < list.len() && !marked[i] && list[i] == #[trigger] w[k] by {
            if k < rest.len() {
                assert(w[k] == rest[k]);
                let i = choose|i: int| 0 <= i < front.len() && !marked[i] && front[i] == rest[k];
                assert(list[i] == w[k]);
            } else {
                assert(list[n] == w[k]);
            }
        }
        if distinct(list) {
            assert forall|i: int, j: int| 0 <= i < front.len() && 0 <= j < front.len() && i
                != j implies !#[trigger] surely_same_files(front[i], front[j]) by {
                assert(!surely_same_files(list[i], list[j]));
            }
            assert forall|i: int, j: int| 0 <= i < w.len() && 0 <= j < w.len() && i
                != j implies !#[trigger] surely_same_files(w[i], w[j]) by {
                if i < rest.len() && j < rest.len() {
                    assert(!surely_same_files(rest[i], rest[j]));
                } else if i < rest.len() {
                    let k = choose|k: int| 0 <= k < front.len() && !marked[k] && front[k] == rest[i];
                    assert(!surely_same_files(list[k], list[n]));
                } else {
                    let k = choose|k: int| 0 <= k < front.len() && !marked[k] && front[k] == rest[j];
                    assert(!surely_same_files(list[n], list[k]));
                }
            }
        }
    }
}

/// However the platform compares paths, the flow that was opened comes first, the
/// others were listed before, no flow is listed twice under any spelling of its
/// paths that every platform takes for the same, and no more are listed than are
/// remembered.
pub proof fn law_recent_flows_are_distinct(
    list: Seq<RecentView>,
    e: RecentView,
    same: Seq<bool>,
)
    requires
        distinct(list),
        is_comparison(list, e, same),
    ensures
        remembered(list, e, same).len() >= 1,
        remembered(list, e, same)[0] == e,
        forall|k: int|
            0 < k < remembered(list, e, same).len() ==> list.contains(
                #[trigger] remembered(list, e, same)[k],
            ),
        distinct(remembered(list, e, same)),
        remembered(list, e, same).len() <= RECENT_MAX,
{
    lemma_without(list, same);
    let w = without(list, same);
    let r = remembered(list, e, same);
    assert forall|k: int| 0 <= k < w.len() implies list.contains(#[trigger] w[k])
        && !surely_same_files(w[k], e) && !surely_same_files(e, w[k]) by {
        let i = choose|i: int| 0 <= i < list.len() && !same[i] && list[i] == w[k];
        assert(!same[i]);
    }
    assert forall|k: int| 0 < k < r.len() implies list.contains(#[trigger] r[k]) by {
        assert(r[k] == w[k - 1]);
    }
    assert forall|i: int, j: int| 0 <= i < r.len() && 0 <= j < r.len() && i
        != j implies !#[trigger] surely_same_files(r[i], r[j]) by {
        if i == 0 {
            assert(r[j] == w[j - 1]);
        } else if j == 0 {
            assert(r[i] == w[i - 1]);
        } else {
            assert(!surely_same_files(w[i - 1], w[j - 1]));
        }
    }
}

proof fn lemma_named_parts(a: Seq<Seq<char>>, b: Seq<Seq<char>>)
    ensures
        named_parts(a + b) == named_parts(a) + named_parts(b),
    decreases b.len(),
{
    if b.len() == 0 {
        assert(a + b =~= a);
        assert(named_parts(a) + named_parts(b) =~= named_parts(a));
    } else {
        lemma_named_parts(a, b.drop_last());
        assert((a + b).drop_last() =~= a + b.drop_last());
        assert((a + b).last() == b.last());
        assert(named_parts(a + b) =~= named_parts(a) + named_parts(b));
    }
}

/// Read with `/` as its separator, one path may be spelled in several ways: a
/// separator may be repeated or stand at the end, and `.` may stand between two
/// parts.
pub proof fn law_spellings_of_a_path(a: Seq<char>, b: Seq<char>)
    requires
        a.len() > 0,
    ensures
        same_path(a + "//"@ + b, a + "/"@ + b),
        same_path(a + "/./"@ + b, a + "/"@ + b),
        same_path(a + "/"@, a),
{
    reveal_strlit("");
    reveal_strlit(".");
    reveal_strlit("/");
    reveal_strlit("//");
    reveal_strlit("/./");
    let none: Seq<char> = seq![];
    let dot: Seq<char> = seq!['.'];
    let pa = split(a, '/');
    let pb = split(b, '/');
    assert(""@ =~= none);
    assert("."@ =~= dot);
    assert(a + "/"@ + b =~= a + seq!['/'] + b);
    assert(a + "//"@ + b =~= a + seq!['/'] + (none + seq!['/'] + b));
    assert(a + "/./"@ + b =~= a + seq!['/'] + (dot + seq!['/'] + b));
    assert(a + "/"@ =~= a + seq!['/'] + none);
    lemma_split_concat(a, b, '/');
    lemma_split_concat(none, b, '/');
    lemma_split_concat(a, none + seq!['/'] + b, '/');
    lemma_split_concat(dot, b, '/');
    lemma_split_concat(a, dot + seq!['/'] + b, '/');
    lemma_split_concat(a, none, '/');
    lemma_find_from(none, seq!['/'], 0);
    lemma_find_from(dot, seq!['/'], 0);
    assert(!occurs_at(dot, seq!['/'], 0)) by {
        assert(dot.subrange(0, 1)[0] == '.');
    }
    assert(split(none, '/') =~= seq![none]);
    assert(split(dot, '/') =~= seq![dot]);
    lemma_named_parts(pa, pb);
    lemma_named_parts(seq![none], pb);
    lemma_named_parts(pa, seq![none] + pb);
    lemma_named_parts(seq![dot], pb);
    lemma_named_parts(pa, seq![dot] + pb);
    lemma_named_parts(pa, seq![none]);
    reveal_with_fuel(named_parts, 2);
    assert(seq![none].drop_last() =~= seq![]);
    assert(seq![dot].drop_last() =~= seq![]);
    assert(named_parts(seq![none]) =~= seq![]);
    assert(named_parts(seq![dot]) =~= seq![]);
    assert(named_parts(seq![none] + pb) =~= named_parts(pb));
    assert(named_parts(seq![dot] + pb) =~= named_parts(pb));
    assert(named_parts(pa + seq![none]) =~= named_parts(pa));
}

/// The files of a flow and the connection, as they are being edited.
#[derive(Debug)]
pub struct Picker {
    pub flow: Option<String>,
    pub cfg: Option<String>,
    pub env: Option<String>,
    pub base_url: String,
    pub tokens: Vec<(String, String)>,
    pub vars: Vec<(String, String)>,
    pub show_tokens: bool,
    pub error: Option<String>,
    pub recent: Vec<RecentEntry>,
    /// The name and the value of a variable that is being added.
    pub new_var_k: String,
    pub new_var_v: String,
    pub vars_open: bool,
}

/// What a `Picker` holds.
pub struct PickerView {
    pub flow: Option<Seq<char>>,
    pub cfg: Option<Seq<char>>,
    pub env: Option<Seq<char>>,
    pub base_url: Seq<char>,
    pub tokens: Seq<(Seq<char>, Seq<char>)>,
    pub vars: Seq<(Seq<char>, Seq<char>)>,
    pub show_tokens: bool,
    pub error: Option<Seq<char>>,
    pub recent: Seq<RecentView>,
    pub new_var_k: Seq<char>,
    pub new_var_v: Seq<char>,
    pub vars_open: bool,
}

impl View for Picker {
    type V = PickerView;

    open spec fn view(&self) -> PickerView {
        PickerView {
            flow: opt_text(self.flow),
            cfg: opt_text(self.cfg),
            env: opt_text(self.env),
            base_url: self.base_url@,
            tokens: pair_texts(self.tokens@),
            vars: pair_texts(self.vars@),
            show_tokens: self.show_tokens,
            error: opt_text(self.error),
            recent: recent_views(self.recent@),
            new_var_k: self.new_var_k@,
            new_var_v: self.new_var_v@,
            vars_open: self.vars_open,
        }
    }
}

/// The path of a file in a folder, where the folder has it. A folder is a list
/// of names and paths.
pub open spec fn file_in(dir: Seq<(Seq<char>, Seq<char>)>, name: Seq<char>) -> Option<Seq<char>>
    decreases dir.len(),
{
    if dir.len() == 0 {
        None
    } else if dir.first().0 == name {
        Some(dir.first().1)
    } else {
        file_in(dir.drop_first(), name)
    }
}

/// The configuration that a folder suggests.
pub open spec fn suggested_cfg(dir: Seq<(Seq<char>, Seq<char>)>) -> Option<Seq<char>> {
    file_in(dir, "flow.yaml"@)
}

/// The environment that a folder suggests: the first of three names.
pub open spec fn suggested_env(dir: Seq<(Seq<char>, Seq<char>)>) -> Option<Seq<char>> {
    match file_in(dir, "dev.yaml"@) {
        Some(p) => Some(p),
        None => match file_in(dir, "env.yaml"@) {
            Some(p) => Some(p),
            None => file_in(dir, "env.sample.yaml"@),
        },
    }
}

fn find_file(dir: &Vec<(String, String)>, name: &str) -> (r: Option<String>)
    ensures
        opt_text(r) == file_in(pair_texts(dir@), name@),
{
    let ghost all = pair_texts(dir@);
    let mut i: usize = 0;
    assert(all.skip(0) =~= all);
    while i < dir.len()
        invariant
            all == pair_texts(dir@),
            i <= dir.len(),
            file_in(all, name@) == file_in(all.skip(i as int), name@),
        decreases dir.len() - i,
    {
        proof {
            assert(all.skip(i as int).first() == (dir@[i as int].0@, dir@[i as int].1@));
            assert(all.skip(i as int).drop_first() =~= all.skip(i + 1));
        }
        if same_text(dir[i].0.as_str(), name) {
            return Some(dir[i].1.clone());
        }
        i += 1;
    }
    None
}

/// The token of a profile, which is empty where there is none.
pub open spec fn token_or_empty(tokens: Map<Seq<char>, Seq<char>>, p: Seq<char>) -> Seq<char> {
    if tokens.contains_key(p) {
        tokens[p]
    } else {
        seq![]
    }
}

/// The tokens to edit: those of the profiles in their order, then those of the
/// environment that are of no profile.
pub open spec fn draft_tokens(
    profiles: Seq<Seq<char>>,
    entries: Seq<(Seq<char>, Seq<char>)>,
    tokens: Map<Seq<char>, Seq<char>>,
) -> Seq<(Seq<char>, Seq<char>)> {
    Seq::new(profiles.len(), |i: int| (profiles[i], token_or_empty(tokens, profiles[i])))
        + other_tokens(profiles, entries)
}

/// The tokens that are of no profile.
pub open spec fn other_tokens(
    profiles: Seq<Seq<char>>,
    entries: Seq<(Seq<char>, Seq<char>)>,
) -> Seq<(Seq<char>, Seq<char>)>
    decreases entries.len(),
{
    if entries.len() == 0 {
        seq![]
    } else {
        let before = other_tokens(profiles, entries.drop_last());
        if profiles.contains(entries.last().0) {
            before
        } else {
            before.push(entries.last())
        }
    }
}

/// Variables of an environment as texts.
pub open spec fn draft_vars(entries: Seq<(Seq<char>, YamlView)>) -> Seq<(Seq<char>, Seq<char>)> {
    Seq::new(entries.len(), |i: int| (entries[i].0, yaml_var(entries[i].1)))
}

/// Pairs with the white space around their values taken off.
pub open spec fn trimmed_values(pairs: Seq<(Seq<char>, Seq<char>)>) -> Seq<
    (Seq<char>, Seq<char>),
> {
    Seq::new(pairs.len(), |i: int| (pairs[i].0, trimmed(pairs[i].1)))
}

/// Pairs with their values as YAML texts.
pub open spec fn yaml_texts(pairs: Seq<(Seq<char>, Seq<char>)>) -> Seq<(Seq<char>, YamlView)> {
    Seq::new(pairs.len(), |i: int| (pairs[i].0, YamlView::Text(pairs[i].1)))
}

fn contains_text(v: &Vec<String>, s: &str) -> (r: bool)
    ensures
        r == texts(v@).contains(s@),
{
    let ghost all = texts(v@);
    let mut i: usize = 0;
    while i < v.len()
        invariant
            all == texts(v@),
            i <= v.len(),
            forall|k: int| 0 <= k < i ==> #[trigger] all[k] != s@,
        decreases v.len() - i,
    {
        if same_text(v[i].as_str(), s) {
            assert(all[i as int] == s@);
            return true;
        }
        i += 1;
    }
    false
}

fn tokens_to_edit(profiles: &Vec<String>, tokens: &StrMap<String>) -> (r: Vec<(String, String)>)
    ensures
        pair_texts(r@) == draft_tokens(
            texts(profiles@),
            text_entries(*tokens),
            text_map(*tokens),
        ),
{
    let ghost names = texts(profiles@);
    let ghost m = text_map(*tokens);
    let ghost all = text_entries(*tokens);
    let mut r: Vec<(String, String)> = Vec::new();
    let mut i: usize = 0;
    while i < profiles.len()
        invariant
            names == texts(profiles@),
            m == text_map(*tokens),
            i <= profiles.len(),
            r@.len() == i,
            forall|k: int|
                0 <= k < i ==> #[trigger] pair_texts(r@)[k] == (
                    names[k],
                    token_or_empty(m, names[k]),
                ),
        decreases profiles.len() - i,
    {
        let ghost before = pair_texts(r@);
        let p = &profiles[i];
        let t = match tokens.get(p.as_str()) {
            Some(t) => {
                assert(m[p@] == t@);
                t.clone()
            },
            None => {
                assert(!m.contains_key(p@));
                String::new()
            },
        };
        assert(t@ =~= token_or_empty(m, p@));
        r.push((p.clone(), t));
        assert(pair_texts(r@) =~= before.push((p@, t@)));
        i += 1;
    }
    let ghost head = Seq::new(names.len(), |i: int| (names[i], token_or_empty(m, names[i])));
    assert(pair_texts(r@) =~= head);
    let mut i: usize = 0;
    assert(pair_texts(r@) =~= head + other_tokens(names, all.take(0)));
    while i < tokens.len()
        invariant
            names == texts(profiles@),
            all == text_entries(*tokens),
            i <= all.len(),
            pair_texts(r@) == head + other_tokens(names, all.take(i as int)),
        decreases all.len() - i,
    {
        let (k, v) = tokens.entry(i);
        let ghost before = pair_texts(r@);
        proof {
            assert(all[i as int] == (k@, v@));
            assert(all.take(i + 1).drop_last() =~= all.take(i as int));
        }
        if !contains_text(profiles, k.as_str()) {
            r.push((k.clone(), v.clone()));
            assert(pair_texts(r@) =~= before.push((k@, v@)));
        }
        assert(pair_texts(r@) =~= head + other_tokens(names, all.take(i + 1)));
        i += 1;
    }
    assert(all.take(i as int) =~= all);
    r
}

fn vars_to_edit(vars: &StrMap<serde_yaml::Value>) -> (r: Vec<(String, String)>)
    ensures
        pair_texts(r@) == draft_vars(yaml_entries(*vars)),
{
    let ghost all = yaml_entries(*vars);
    let mut r: Vec<(String, String)> = Vec::new();
    let mut i: usize = 0;
    while i < vars.len()
        invariant
            all == yaml_entries(*vars),
            i <= all.len(),
            r@.len() == i,
            forall|k: int| 0 <= k < i ==> #[trigger] pair_texts(r@)[k] == draft_vars(all)[k],
        decreases all.len() - i,
    {
        let (k, v) = vars.entry(i);
        let ghost before = pair_texts(r@);
        let t = yaml_to_var_string(v);
        r.push((k.clone(), t));
        assert(pair_texts(r@) =~= before.push((k@, t@)));
        assert(all[i as int] == (k@, yaml_view(*v)));
        i += 1;
    }
    assert(pair_texts(r@) =~= draft_vars(all));
    r
}

impl Picker {
    /// An opening screen on which nothing is chosen yet.
    pub fn new(recent: Vec<RecentEntry>) -> (r: Self)
        ensures
            r@ == (PickerView {
                flow: None,
                cfg: None,
                env: None,
                base_url: seq![],
                tokens: seq![],
                vars: seq![],
                show_tokens: false,
                error: None,
                recent: recent_views(recent@),
                new_var_k: seq![],
                new_var_v: seq![],
                vars_open: true,
            }),
    {
        let r = Picker {
            flow: None,
            cfg: None,
            env: None,
            base_url: String::new(),
            tokens: Vec::new(),
            vars: Vec::new(),
            show_tokens: false,
            error: None,
            recent,
            new_var_k: String::new(),
            new_var_v: String::new(),
            vars_open: true,
        };
        proof {
            assert(r@.base_url =~= seq![] && r@.tokens =~= seq![] && r@.vars =~= seq![]);
            assert(r@.new_var_k =~= seq![] && r@.new_var_v =~= seq![]);
        }
        r
    }

    /// A chart was chosen. Where no configuration or environment is chosen yet,
    /// its folder suggests them.
    pub fn on_flow_picked(&mut self, p: String, dir: &Vec<(String, String)>)
        ensures
            final(self)@ == (PickerView {
                flow: Some(p@),
                cfg: if old(self)@.cfg is Some {
                    old(self)@.cfg
                } else {
                    suggested_cfg(pair_texts(dir@))
                },
                env: if old(self)@.env is Some {
                    old(self)@.env
                } else {
                    suggested_env(pair_texts(dir@))
                },
                ..old(self)@
            }),
    {
        if self.cfg.is_none() {
            self.cfg = find_file(dir, "flow.yaml");
        }
        if self.env.is_none() {
            let mut found = find_file(dir, "dev.yaml");
            if found.is_none() {
                found = find_file(dir, "env.yaml");
            }
            if found.is_none() {
                found = find_file(dir, "env.sample.yaml");
            }
            self.env = found;
        }
        self.flow = Some(p);
    }

    /// Fills in the connection from the profiles of the configuration and from
    /// the environment.
    pub fn reload_draft(&mut self, profiles: &Vec<String>, env: &EnvConfig)
        ensures
            final(self)@ == (PickerView {
                error: None,
                base_url: env.base_url@,
                tokens: draft_tokens(
                    texts(profiles@),
                    text_entries(env.tokens),
                    text_map(env.tokens),
                ),
                vars: draft_vars(yaml_entries(env.vars)),
                ..old(self)@
            }),
    {
        self.error = None;
        self.base_url = env.base_url.clone();
        self.tokens = tokens_to_edit(profiles, &env.tokens);
        self.vars = vars_to_edit(&env.vars);
    }

    /// The environment that was edited: without white space around the URL and
    /// the tokens, and with every variable a text.
    pub fn to_env_config(&self) -> (r: EnvConfig)
        ensures
            r.base_url@ == trimmed(self@.base_url),
            text_map(r.tokens) == entries_map(trimmed_values(self@.tokens)),
            r.vars@.map_values(|v: serde_yaml::Value| yaml_view(v)) == entries_map(
                yaml_texts(self@.vars),
            ),
    {
        let mut tokens: StrMap<String> = StrMap::new();
        let ghost all = trimmed_values(self@.tokens);
        let mut i: usize = 0;
        assert(text_map(tokens) =~= entries_map(all.take(0)));
        while i < self.tokens.len()
            invariant
                all == trimmed_values(pair_texts(self.tokens@)),
                i <= self.tokens.len(),
                text_map(tokens) == entries_map(all.take(i as int)),
            decreases self.tokens.len() - i,
        {
            let ghost before = text_map(tokens);
            let k = self.tokens[i].0.clone();
            let v = trim(self.tokens[i].1.as_str());
            tokens.insert(k, v);
            proof {
                assert(all.take(i + 1).drop_last() =~= all.take(i as int));
                assert(text_map(tokens) =~= before.insert(k@, v@));
            }
            i += 1;
        }
        assert(all.take(i as int) =~= all);
        let mut vars: StrMap<serde_yaml::Value> = StrMap::new();
        let ghost want = yaml_texts(self@.vars);
        let mut i: usize = 0;
        assert(vars@.map_values(|v: serde_yaml::Value| yaml_view(v)) =~= entries_map(
            want.take(0),
        ));
        while i < self.vars.len()
            invariant
                want == yaml_texts(pair_texts(self.vars@)),
                i <= self.vars.len(),
                vars@.map_values(|v: serde_yaml::Value| yaml_view(v)) == entries_map(
                    want.take(i as int),
                ),
            decreases self.vars.len() - i,
        {
            let ghost before = vars@;
            let k = self.vars[i].0.clone();
            let v = yaml_string(self.vars[i].1.clone());
            vars.insert(k, v);
            proof {
                assert(want.take(i + 1).drop_last() =~= want.take(i as int));
                assert(vars@.map_values(|v: serde_yaml::Value| yaml_view(v)) =~= before.map_values(
                    |v: serde_yaml::Value| yaml_view(v),
                ).insert(k@, yaml_view(v)));
            }
            i += 1;
        }
        assert(want.take(i as int) =~= want);
        EnvConfig { base_url: trim(self.base_url.as_str()), tokens, vars }
    }

    /// A flow that was opened before is chosen.
    pub fn pick_recent(&mut self, e: &RecentEntry)
        ensures
            final(self)@ == (PickerView {
                flow: Some(e@.flow),
                cfg: Some(e@.cfg),
                env: e@.env,
                ..old(self)@
            }),
    {
        self.flow = Some(e.flow.clone());
        self.cfg = Some(e.cfg.clone());
        self.env = e.env.clone();
    }

    /// Adds the variable that was typed in, unless its name is blank.
    pub fn add_var(&mut self)
        ensures
            final(self)@ == if trimmed(old(self)@.new_var_k).len() > 0 {
                PickerView {
                    vars: old(self)@.vars.push(
                        (trimmed(old(self)@.new_var_k), old(self)@.new_var_v),
                    ),
                    new_var_k: seq![],
                    new_var_v: seq![],
                    ..old(self)@
                }
            } else {
                old(self)@
            },
    {
        let name = trim(self.new_var_k.as_str());
        if name.as_str().is_empty() {
            return;
        }
        let ghost before = self@.vars;
        let value = self.new_var_v.clone();
        self.vars.push((name, value));
        self.new_var_k = String::new();
        self.new_var_v = String::new();
        proof {
            assert(self@.vars =~= before.push((name@, value@)));
            assert(self@.new_var_k =~= seq![] && self@.new_var_v =~= seq![]);
        }
    }

    /// Removes a variable.
    pub fn remove_var(&mut self, i: usize)
        requires
            i < old(self)@.vars.len(),
        ensures
            final(self)@ == (PickerView {
                vars: old(self)@.vars.remove(i as int),
                ..old(self)@
            }),
    {
        let ghost before = self@.vars;
        let _ = self.vars.remove(i);
        assert(self@.vars =~= before.remove(i as int));
    }

    /// Whether the chart and the configuration are chosen.
    pub fn is_ready(&self) -> (r: bool)
        ensures
            r == (self@.flow is Some && self@.cfg is Some),
    {
        self.flow.is_some() && self.cfg.is_some()
    }

    /// The flow to open: the chart, the configuration, and the environment. Where
    /// one of the first two is missing, that is the error.
    pub fn to_open(&mut self) -> (r: Option<RecentEntry>)
        ensures
            match r {
                Some(e) => {
                    &&& old(self)@.flow == Some(e@.flow)
                    &&& old(self)@.cfg == Some(e@.cfg)
                    &&& old(self)@.env == e@.env
                    &&& final(self)@ == old(self)@
                },
                None => {
                    &&& old(self)@.flow is None || old(self)@.cfg is None
                    &&& final(self)@ == (PickerView {
                        error: Some("select flow.mmd and flow.yaml first"@),
                        ..old(self)@
                    })
                },
            },
    {
        match (&self.flow, &self.cfg) {
            (Some(f), Some(c)) => {
                return Some(
                    RecentEntry { flow: f.clone(), cfg: c.clone(), env: self.env.clone() },
                );
            },
            _ => {},
        }
        self.error = Some("select flow.mmd and flow.yaml first".to_owned());
        None
    }
}

proof fn lemma_uniform_pairs(
    pairs: Seq<(Seq<char>, Seq<char>)>,
    tokens: Map<Seq<char>, Seq<char>>,
    k: Seq<char>,
)
    requires
        forall|i: int|
            0 <= i < pairs.len() ==> (#[trigger] pairs[i]).1 == trimmed(
                token_or_empty(tokens, pairs[i].0),
            ),
        exists|i: int| 0 <= i < pairs.len() && (#[trigger] pairs[i]).0 == k,
    ensures
        entries_map(pairs).contains_pair(k, trimmed(token_or_empty(tokens, k))),
    decreases pairs.len(),
{
    let front = pairs.drop_last();
    let n = pairs.len() - 1;
    assert(pairs[n] == pairs.last());
    if pairs.last().0 != k {
        let i = choose|i: int| 0 <= i < pairs.len() && (#[trigger] pairs[i]).0 == k;
        assert(front[i].0 == k);
        assert forall|j: int| 0 <= j < front.len() implies (#[trigger] front[j]).1 == trimmed(
            token_or_empty(tokens, front[j].0),
        ) by {
            assert(front[j] == pairs[j]);
        }
        lemma_uniform_pairs(front, tokens, k);
    }
}

proof fn lemma_other_tokens(
    profiles: Seq<Seq<char>>,
    entries: Seq<(Seq<char>, Seq<char>)>,
    i: int,
)
    requires
        0 <= i < entries.len(),
        !profiles.contains(entries[i].0),
    ensures
        other_tokens(profiles, entries).contains(entries[i]),
    decreases entries.len(),
{
    let front = entries.drop_last();
    if i < entries.len() - 1 {
        lemma_other_tokens(profiles, front, i);
        let before = other_tokens(profiles, front);
        let j = choose|j: int| 0 <= j < before.len() && before[j] == front[i];
        assert(other_tokens(profiles, entries)[j] == entries[i]);
    } else {
        assert(other_tokens(profiles, entries).last() == entries[i]);
    }
}

proof fn lemma_other_tokens_are_entries(
    profiles: Seq<Seq<char>>,
    entries: Seq<(Seq<char>, Seq<char>)>,
)
    ensures
        forall|j: int|
            0 <= j < other_tokens(profiles, entries).len() ==> entries.contains(
                #[trigger] other_tokens(profiles, entries)[j],
            ),
    decreases entries.len(),
{
    if entries.len() > 0 {
        let front = entries.drop_last();
        lemma_other_tokens_are_entries(profiles, front);
        assert forall|j: int| 0 <= j < other_tokens(profiles, entries).len() implies entries.contains(
            #[trigger] other_tokens(profiles, entries)[j],
        ) by {
            let before = other_tokens(profiles, front);
            if j < before.len() {
                let i = choose|i: int| 0 <= i < front.len() && front[i] == before[j];
                assert(entries[i] == before[j]);
            } else {
                assert(entries[entries.len() - 1] == other_tokens(profiles, entries)[j]);
            }
        }
    }
}

/// Loading an environment for editing and taking it back loses no token: every
/// token comes back, up to white space around it, under its profile.
pub proof fn law_editing_keeps_tokens(
    profiles: Seq<Seq<char>>,
    entries: Seq<(Seq<char>, Seq<char>)>,
    k: Seq<char>,
)
    requires
        ascending(entries),
        entries_map(entries).contains_key(k),
    ensures
        entries_map(
            trimmed_values(draft_tokens(profiles, entries, entries_map(entries))),
        ).contains_pair(k, trimmed(entries_map(entries)[k])),
{
    let tokens = entries_map(entries);
    let draft = draft_tokens(profiles, entries, tokens);
    let pairs = trimmed_values(draft);
    let others = other_tokens(profiles, entries);
    let n = profiles.len() as int;
    lemma_ascending_map(entries);
    lemma_other_tokens_are_entries(profiles, entries);
    assert forall|i: int| 0 <= i < pairs.len() implies (#[trigger] pairs[i]).1 == trimmed(
        token_or_empty(tokens, pairs[i].0),
    ) by {
        if i >= n {
            assert(draft[i] == others[i - n]);
            let j = choose|j: int| 0 <= j < entries.len() && entries[j] == others[i - n];
            assert(tokens.contains_pair(entries[j].0, entries[j].1));
        }
    }
    if profiles.contains(k) {
        let i = choose|i: int| 0 <= i < profiles.len() && profiles[i] == k;
        assert(pairs[i].0 == k);
    } else {
        let i = choose|i: int| 0 <= i < entries.len() && entries[i].0 == k;
        lemma_other_tokens(profiles, entries, i);
        let j = choose|j: int| 0 <= j < others.len() && others[j] == entries[i];
        assert(draft[n + j] == others[j]);
        assert(pairs[n + j].0 == k);
    }
    lemma_uniform_pairs(pairs, tokens, k);
}

proof fn lemma_without_parts(
    a: Seq<RecentView>,
    b: Seq<RecentView>,
    ma: Seq<bool>,
    mb: Seq<bool>,
)
    requires
        ma.len() == a.len(),
        mb.len() == b.len(),
    ensures
        without(a + b, ma + mb) == without(a, ma) + without(b, mb),
    decreases b.len(),
{
    if b.len() == 0 {
        assert(a + b =~= a);
        assert(ma + mb =~= ma);
        assert(without(a, ma) + without(b, mb) =~= without(a, ma));
    } else {
        let n = b.len() - 1;
        let front = b.drop_last();
        let mf = mb.drop_last();
        lemma_without_parts(a, front, ma, mf);
        assert((a + b).drop_last() =~= a + front);
        assert((a + b).last() == b.last());
        assert((ma + mb)[(a + b).len() - 1] == mb[n]);
        lemma_marks_beyond(a + front, ma + mb, ma + mf);
        lemma_marks_beyond(front, mb, mf);
        assert(without(a + b, ma + mb) =~= without(a, ma) + without(b, mb));
    }
}

proof fn lemma_marks_beyond(list: Seq<RecentView>, m: Seq<bool>, k: Seq<bool>)
    requires
        m.len() >= list.len(),
        k.len() >= list.len(),
        forall|i: int| 0 <= i < list.len() ==> #[trigger] m[i] == k[i],
    ensures
        without(list, m) == without(list, k),
    decreases list.len(),
{
    if list.len() > 0 {
        assert(m[list.len() - 1] == k[list.len() - 1]);
        lemma_marks_beyond(list.drop_last(), m, k);
    }
}

/// Opening a flow forgets the entries that are the same, and no others but those
/// beyond the eighth: the others stay, in their order, behind the flow that was
/// opened.
pub proof fn law_other_flows_stay_in_order(
    a: Seq<RecentView>,
    x: RecentView,
    m: bool,
    b: Seq<RecentView>,
    ma: Seq<bool>,
    mb: Seq<bool>,
    e: RecentView,
)
    requires
        ma.len() == a.len(),
        mb.len() == b.len(),
    ensures
        without(seq![], seq![]).len() == 0,
        without(a + seq![x] + b, ma + seq![m] + mb) == without(a, ma) + (if m {
            Seq::<RecentView>::empty()
        } else {
            seq![x]
        }) + without(b, mb),
        remembered(a, e, ma) == if without(a, ma).len() <= 7 {
            seq![e] + without(a, ma)
        } else {
            seq![e] + without(a, ma).take(7)
        },
{
    lemma_without_parts(a + seq![x], b, ma + seq![m], mb);
    lemma_without_parts(a, seq![x], ma, seq![m]);
    let one = seq![x];
    assert(one.drop_last() =~= Seq::<RecentView>::empty());
    reveal_with_fuel(without, 2);
    if m {
        assert(without(one, seq![m]) =~= Seq::<RecentView>::empty());
    } else {
        assert(without(one, seq![m]) =~= seq![x]);
    }
    let w = without(a, ma);
    if w.len() > 7 {
        assert((seq![e] + w).take(8) =~= seq![e] + w.take(7));
    }
}

/// A path is the names along it: a name that is neither empty nor `.` adds one
/// component to the path before it, an absolute path begins with the root, and a
/// name alone is a path of one component.
pub proof fn law_names_make_up_a_path(a: Seq<char>, n: Seq<char>)
    requires
        !n.contains('/'),
        n.len() > 0,
        n != "."@,
    ensures
        components(n) == seq![n],
        components(seq!['/'] + n) == seq!["/"@, n],
        a.len() > 0 ==> components(a + seq!['/'] + n) == components(a) + seq![n],
{
    let none = Seq::<char>::empty();
    reveal_strlit("");
    reveal_strlit(".");
    assert(""@ =~= none);
    assert(n != ""@);
    reveal_with_fuel(named_parts, 2);
    law_pieces_stand_between_separators(n, '/', none);
    law_pieces_stand_between_separators(none, '/', n);
    assert(none + seq!['/'] + n =~= seq!['/'] + n);
    assert(n[0] != '/') by {
        assert(n.contains(n[0]));
    }
    let one = seq![n];
    assert(one.drop_last() =~= Seq::<Seq<char>>::empty());
    assert(named_parts(one) =~= seq![n]);
    assert(components(n) =~= seq![n]);
    let two = seq![none] + seq![n];
    lemma_named_parts(seq![none], one);
    assert(seq![none].drop_last() =~= Seq::<Seq<char>>::empty());
    assert(named_parts(seq![none]) =~= Seq::<Seq<char>>::empty());
    assert(named_parts(two) =~= seq![n]);
    assert(components(seq!['/'] + n) =~= seq!["/"@, n]);
    if a.len() > 0 {
        lemma_split_concat(a, n, '/');
        lemma_named_parts(split(a, '/'), one);
        assert((a + seq!['/'] + n)[0] == a[0]);
        assert(split(a + seq!['/'] + n, '/')[0] == split(a, '/')[0]);
        assert(components(a + seq!['/'] + n) =~= components(a) + seq![n]);
    }
}

/// A folder suggests the files that it has under the usual names: `flow.yaml` as the
/// configuration, and as the environment `dev.yaml`, else `env.yaml`, else
/// `env.sample.yaml`.
pub proof fn law_folders_suggest_their_files(
    dir: Seq<(Seq<char>, Seq<char>)>,
    name: Seq<char>,
    i: int,
)
    ensures
        0 <= i < dir.len() && dir[i].0 == name && (forall|j: int|
            0 <= j < i ==> (#[trigger] dir[j]).0 != name) ==> file_in(dir, name) == Some(dir[i].1),
        file_in(dir, name) is None <==> forall|j: int|
            0 <= j < dir.len() ==> (#[trigger] dir[j]).0 != name,
        suggested_cfg(dir) == file_in(dir, "flow.yaml"@),
        file_in(dir, "dev.yaml"@) is Some ==> suggested_env(dir) == file_in(dir, "dev.yaml"@),
        file_in(dir, "dev.yaml"@) is None && file_in(dir, "env.yaml"@) is Some ==> suggested_env(
            dir,
        ) == file_in(dir, "env.yaml"@),
        file_in(dir, "dev.yaml"@) is None && file_in(dir, "env.yaml"@) is None ==> suggested_env(
            dir,
        ) == file_in(dir, "env.sample.yaml"@),
    decreases dir.len(),
{
    if dir.len() > 0 {
        let rest = dir.drop_first();
        law_folders_suggest_their_files(rest, name, i - 1);
        assert(dir[0] == dir.first());
        if 0 < i < dir.len() && (forall|j: int| 0 <= j < i ==> (#[trigger] dir[j]).0 != name) {
            assert(dir[0].0 != name);
            assert(rest[i - 1] == dir[i]);
            assert forall|j: int| 0 <= j < i - 1 implies (#[trigger] rest[j]).0 != name by {
                assert(rest[j] == dir[j + 1]);
            }
        }
        if file_in(dir, name) is None {
            assert forall|j: int| 0 <= j < dir.len() implies (#[trigger] dir[j]).0 != name by {
                if j > 0 {
                    assert(rest[j - 1] == dir[j]);
                }
            }
        } else if forall|j: int| 0 <= j < dir.len() ==> (#[trigger] dir[j]).0 != name {
            assert forall|j: int| 0 <= j < rest.len() implies (#[trigger] rest[j]).0 != name by {
                assert(rest[j] == dir[j + 1]);
            }
        }
    }
}

/// What is loaded for editing is what the files say: one line for each profile, in
/// their order and with its token or empty, and one for each variable with its text;
/// and what is taken back holds the same names, the tokens without white space
/// around them and the variables as they were typed.
pub proof fn law_drafts_show_the_files(
    profiles: Seq<Seq<char>>,
    entries: Seq<(Seq<char>, Seq<char>)>,
    tokens: Map<Seq<char>, Seq<char>>,
    vars: Seq<(Seq<char>, YamlView)>,
    pairs: Seq<(Seq<char>, Seq<char>)>,
    i: int,
)
    ensures
        draft_tokens(profiles, entries, tokens).len() >= profiles.len(),
        0 <= i < profiles.len() ==> draft_tokens(profiles, entries, tokens)[i] == (
            profiles[i],
            if tokens.contains_key(profiles[i]) {
                tokens[profiles[i]]
            } else {
                Seq::<char>::empty()
            },
        ),
        draft_vars(vars).len() == vars.len(),
        0 <= i < vars.len() ==> draft_vars(vars)[i] == (vars[i].0, yaml_var(vars[i].1)),
        trimmed_values(pairs).len() == pairs.len(),
        yaml_texts(pairs).len() == pairs.len(),
        0 <= i < pairs.len() ==> trimmed_values(pairs)[i] == (pairs[i].0, trimmed(pairs[i].1)),
        0 <= i < pairs.len() ==> yaml_texts(pairs)[i] == (
            pairs[i].0,
            YamlView::Text(pairs[i].1),
        ),
{
}

/// Behind the profiles come the tokens of the environment that belong to none of
/// them, all of them and in their order.
pub proof fn law_other_tokens_come_behind(
    profiles: Seq<Seq<char>>,
    a: Seq<(Seq<char>, Seq<char>)>,
    e: (Seq<char>, Seq<char>),
    tokens: Map<Seq<char>, Seq<char>>,
)
    ensures
        draft_tokens(profiles, seq![], tokens).len() == profiles.len(),
        draft_tokens(profiles, a + seq![e], tokens) == draft_tokens(profiles, a, tokens) + if (
        exists|i: int| 0 <= i < profiles.len() && #[trigger] profiles[i] == e.0) {
            Seq::<(Seq<char>, Seq<char>)>::empty()
        } else {
            seq![e]
        },
{
    assert((a + seq![e]).drop_last() =~= a);
    assert((a + seq![e]).last() == e);
    let d = draft_tokens(profiles, a, tokens);
    assert(d + Seq::<(Seq<char>, Seq<char>)>::empty() =~= d);
    assert(draft_tokens(profiles, a + seq![e], tokens) =~= d + if profiles.contains(e.0) {
        Seq::<(Seq<char>, Seq<char>)>::empty()
    } else {
        seq![e]
    });
}

} // verus!
