//! Searching the docs of a project.
use vstd::prelude::*;

use crate::error::{concat, ErrorView, OverleafError, Result};
use crate::matcher::{pattern_matches, Matcher};
use crate::number::{decimal, push_decimal};
use crate::pieces::{split, split_on};
use crate::project::{
    a_path_below_begins_with_the_names, docs_are_the_doc_entries, docs_of, entry_list,
    every_tree_has_a_listing, is_entry, leads, normalized, normalizing_twice_is_normalizing_once, pair_views, path_in,
    path_names, slash_path_keeps_plain_names, EntityKind, EntryView, ProjectTree, TreeView,
};
use crate::stamps::lies_under;
use crate::table::{key_list, listed_keys_are_counted, Table};
use crate::text::{begins_with, first_chars, opt_str, same_text, starts_with, taken, texts};

verus! {

// --- which docs to search ------------------------------------------------

/// Whether a doc is to be searched.
pub open spec fn in_scope(path: Seq<char>, scope: Option<Seq<char>>) -> bool {
    match scope {
        None => true,
        Some(scope) => scope == "/"@ || lies_under(path, scope),
    }
}

/// The docs of a list that are to be searched.
pub open spec fn scoped(docs: Seq<(Seq<char>, Seq<char>)>, scope: Option<Seq<char>>) -> Seq<
    (Seq<char>, Seq<char>),
>
    decreases docs.len(),
{
    if docs.len() == 0 {
        Seq::empty()
    } else {
        let before = scoped(docs.drop_last(), scope);
        if in_scope(docs.last().0, scope) {
            before.push(docs.last())
        } else {
            before
        }
    }
}

/// The path to search under, in the form `/a/b/c`.
pub open spec fn scope_of(path: Option<Seq<char>>) -> Option<Seq<char>> {
    match path {
        Some(path) => Some(normalized(path)),
        None => None,
    }
}

/// The docs to search, by path and id; there must be some.
pub open spec fn search_docs(
    tree: TreeView,
    project: Seq<char>,
    path: Option<Seq<char>>,
) -> core::result::Result<Seq<(Seq<char>, Seq<char>)>, ErrorView> {
    let scope = scope_of(path);
    let docs = scoped(docs_of(entry_list(tree.nodes)), scope);
    if docs.len() == 0 {
        Err(
            ErrorView::NotFound(
                "no docs to search under "@ + (match scope {
                    Some(scope) => scope,
                    None => "/"@,
                }) + " in project "@ + project,
            ),
        )
    } else {
        Ok(docs)
    }
}

/// Docs, or the error in their place, as plain values.
pub open spec fn docs_result(res: Result<Vec<(String, String)>>) -> core::result::Result<
    Seq<(Seq<char>, Seq<char>)>,
    ErrorView,
> {
    match res {
        Ok(docs) => Ok(pair_views(docs@)),
        Err(e) => Err(e@),
    }
}

fn within(path: &str, scope: &Option<String>) -> (yes: bool)
    ensures
        yes == in_scope(
            path@,
            match scope {
                Some(s) => Some(s@),
                None => None,
            },
        ),
{
    match scope {
        None => true,
        Some(scope) => {
            let prefix = concat(scope.as_str(), "/");
            same_text(scope.as_str(), "/") || same_text(path, scope.as_str()) || starts_with(
                path,
                prefix.as_str(),
            )
        },
    }
}

/// The docs to search, by path and id.
pub fn docs_to_search(tree: &ProjectTree, project: &str, path: Option<&str>) -> (docs: Result<
    Vec<(String, String)>,
>)
    ensures
        docs_result(docs) == search_docs(tree@, project@, opt_str(path)),
{
    let scope: Option<String> = match path {
        Some(path) => Some(ProjectTree::normalize_path(path)),
        None => None,
    };
    let ghost wanted = scope_of(opt_str(path));
    let all = tree.docs();
    let ghost listed = pair_views(all@);
    let mut docs: Vec<(String, String)> = Vec::new();
    let mut i: usize = 0;
    assert(listed.take(0) =~= Seq::<(Seq<char>, Seq<char>)>::empty());
    assert(pair_views(docs@) =~= Seq::<(Seq<char>, Seq<char>)>::empty());
    while i < all.len()
        invariant
            i <= all@.len(),
            listed == pair_views(all@),
            wanted == (match scope {
                Some(s) => Some(s@),
                None => None,
            }),
            pair_views(docs@) == scoped(listed.take(i as int), wanted),
        decreases all@.len() - i,
    {
        assert(listed.take(i + 1).drop_last() =~= listed.take(i as int));
        assert(listed.take(i + 1).last() == (all@[i as int].0@, all@[i as int].1@));
        let ghost before = pair_views(docs@);
        if within(all[i].0.as_str(), &scope) {
            docs.push((all[i].0.clone(), all[i].1.clone()));
            assert(pair_views(docs@) =~= before.push((all@[i as int].0@, all@[i as int].1@)));
        }
        i += 1;
    }
    assert(listed.take(all@.len() as int) =~= listed);
    if docs.len() == 0 {
        let mut text = match &scope {
            Some(scope) => concat("no docs to search under ", scope.as_str()),
            None => concat("no docs to search under ", "/"),
        };
        text.append(" in project ");
        text.append(project);
        return Err(OverleafError::NotFound(text));
    }
    Ok(docs)
}

// --- hits ----------------------------------------------------------------

/// A line that matches.
#[derive(Debug)]
pub struct Hit {
    pub path: String,
    /// The number of the line, from 1 on.
    pub line: usize,
    /// The beginning of the line.
    pub text: String,
}

/// A line that matches, as plain values.
pub struct HitView {
    pub path: Seq<char>,
    pub line: nat,
    pub text: Seq<char>,
}

impl View for Hit {
    type V = HitView;

    open spec fn view(&self) -> HitView {
        HitView { path: self.path@, line: self.line as nat, text: self.text@ }
    }
}

/// Hits as plain values.
pub open spec fn hit_views(hits: Seq<Hit>) -> Seq<HitView> {
    Seq::new(hits.len(), |i: int| hits[i]@)
}

/// The hits in a doc, given for each line whether it matches. A line is shown
/// with at most its first 200 characters.
pub open spec fn flagged_hits(
    path: Seq<char>,
    lines: Seq<Seq<char>>,
    matching: Seq<bool>,
) -> Seq<HitView>
    decreases lines.len(),
{
    if lines.len() == 0 {
        Seq::empty()
    } else {
        let before = flagged_hits(path, lines.drop_last(), matching);
        if matching[lines.len() - 1] {
            before.push(HitView { path, line: lines.len(), text: taken(lines.last(), 200) })
        } else {
            before
        }
    }
}

/// For each line whether a pattern matches it.
pub open spec fn match_flags(
    lines: Seq<Seq<char>>,
    pattern: Seq<char>,
    ignore_case: bool,
) -> Seq<bool> {
    Seq::new(lines.len(), |i: int| pattern_matches(pattern, ignore_case, lines[i]))
}

/// The hits in a doc.
pub open spec fn hits_in(
    path: Seq<char>,
    lines: Seq<Seq<char>>,
    pattern: Seq<char>,
    ignore_case: bool,
) -> Seq<HitView> {
    flagged_hits(path, lines, match_flags(lines, pattern, ignore_case))
}

/// The lines that match in the docs of a list, in its order.
pub open spec fn hits_across(
    paths: Seq<Seq<char>>,
    contents: Map<Seq<char>, Seq<char>>,
    pattern: Seq<char>,
    ignore_case: bool,
) -> Seq<HitView>
    decreases paths.len(),
{
    if paths.len() == 0 {
        Seq::empty()
    } else {
        hits_across(paths.drop_last(), contents, pattern, ignore_case) + hits_in(
            paths.last(),
            split_on(contents[paths.last()], '\n'),
            pattern,
            ignore_case,
        )
    }
}

/// Adds the hits in a doc, given for each line whether it matches.
pub fn push_flagged(
    hits: &mut Vec<Hit>,
    path: &str,
    lines: &Vec<String>,
    matching: &Vec<bool>,
)
    requires
        matching@.len() == lines@.len(),
    ensures
        hit_views(final(hits)@) == hit_views(old(hits)@) + flagged_hits(
            path@,
            texts(lines@),
            matching@,
        ),
{
    let ghost all = texts(lines@);
    let ghost before = hit_views(hits@);
    let mut i: usize = 0;
    assert(all.take(0) =~= Seq::<Seq<char>>::empty());
    assert(before + flagged_hits(path@, all.take(0), matching@) =~= before);
    while i < lines.len()
        invariant
            i <= lines@.len(),
            matching@.len() == lines@.len(),
            all == texts(lines@),
            hit_views(hits@) == before + flagged_hits(path@, all.take(i as int), matching@),
        decreases lines@.len() - i,
    {
        assert(all.take(i + 1).drop_last() =~= all.take(i as int));
        let ghost so_far = hit_views(hits@);
        if matching[i] {
            let hit = Hit {
                path: path.to_owned(),
                line: i + 1,
                text: first_chars(lines[i].as_str(), 200),
            };
            hits.push(hit);
            assert(hit_views(hits@) =~= so_far.push(hit@));
        }
        assert(hit_views(hits@) =~= before + flagged_hits(path@, all.take(i + 1), matching@));
        i += 1;
    }
    assert(all.take(lines@.len() as int) =~= all);
}

fn flags_of(matcher: &Matcher, lines: &Vec<String>) -> (matching: Vec<bool>)
    ensures
        matching@ == match_flags(texts(lines@), matcher.pattern(), matcher.ignores_case()),
{
    let mut matching: Vec<bool> = Vec::new();
    let mut i: usize = 0;
    while i < lines.len()
        invariant
            i <= lines@.len(),
            matching@.len() == i,
            forall|j: int|
                0 <= j < i ==> #[trigger] matching@[j] == pattern_matches(
                    matcher.pattern(),
                    matcher.ignores_case(),
                    lines@[j]@,
                ),
        decreases lines@.len() - i,
    {
        matching.push(matcher.matches(lines[i].as_str()));
        i += 1;
    }
    assert(matching@ =~= match_flags(
        texts(lines@),
        matcher.pattern(),
        matcher.ignores_case(),
    ));
    matching
}

/// The lines that match in the docs, by path.
pub fn find_hits(matcher: &Matcher, contents: &Table<String>) -> (hits: Vec<Hit>)
    ensures
        hit_views(hits@) == hits_across(
            key_list(contents@),
            contents@,
            matcher.pattern(),
            matcher.ignores_case(),
        ),
{
    let n: usize = contents.len();
    let ghost keys = contents.keys();
    let ghost pattern = matcher.pattern();
    let ghost ignore_case = matcher.ignores_case();
    let mut hits: Vec<Hit> = Vec::new();
    let mut i: usize = 0;
    assert(keys.take(0) =~= Seq::<Seq<char>>::empty());
    assert(hit_views(hits@) =~= Seq::<HitView>::empty());
    while i < n
        invariant
            i <= n,
            n == keys.len(),
            keys == contents.keys(),
            pattern == matcher.pattern(),
            ignore_case == matcher.ignores_case(),
            hit_views(hits@) == hits_across(
                keys.take(i as int),
                contents@,
                pattern,
                ignore_case,
            ),
        decreases n - i,
    {
        assert(keys.take(i + 1).drop_last() =~= keys.take(i as int));
        let lines = split(contents.value_at(i).as_str(), '\n');
        let matching = flags_of(matcher, &lines);
        push_flagged(&mut hits, contents.key_at(i).as_str(), &lines, &matching);
        i += 1;
    }
    assert(keys.take(n as int) =~= keys);
    hits
}

// --- the report ----------------------------------------------------------

/// Hits, one to a line.
pub open spec fn hit_lines(hits: Seq<HitView>) -> Seq<char>
    decreases hits.len(),
{
    if hits.len() == 0 {
        Seq::empty()
    } else {
        let hit = hits.last();
        hit_lines(hits.drop_last()) + hit.path + ":"@ + decimal(hit.line) + ": "@ + hit.text
            + "\n"@
    }
}

/// The report on a search: at most `most` hits, with a note where there are
/// more.
pub open spec fn search_text(
    pattern: Seq<char>,
    hits: Seq<HitView>,
    docs: nat,
    most: nat,
) -> Seq<char> {
    let shown = if hits.len() <= most {
        hits
    } else {
        hits.take(most as int)
    };
    decimal(shown.len()) + " match(es) for `"@ + pattern + "` across "@ + decimal(docs)
        + " doc(s)"@ + (if hits.len() > most {
        " (truncated)"@
    } else {
        Seq::empty()
    }) + "\n"@ + hit_lines(shown)
}

/// The report on a search.
pub fn render_hits(pattern: &str, hits: &Vec<Hit>, docs: usize, most: usize) -> (text: String)
    ensures
        text@ == search_text(pattern@, hit_views(hits@), docs as nat, most as nat),
{
    let truncated = hits.len() > most;
    let n: usize = if truncated {
        most
    } else {
        hits.len()
    };
    let ghost all = hit_views(hits@);
    let ghost shown = if all.len() <= most {
        all
    } else {
        all.take(most as int)
    };
    assert(shown =~= all.take(n as int));
    let mut text = String::new();
    push_decimal(&mut text, n as u64);
    assert(text@ =~= decimal(n as nat));
    text.append(" match(es) for `");
    text.append(pattern);
    text.append("` across ");
    push_decimal(&mut text, docs as u64);
    text.append(" doc(s)");
    if truncated {
        text.append(" (truncated)");
    } else {
        assert(text@ + Seq::<char>::empty() =~= text@);
    }
    text.append("\n");
    let ghost head = text@;
    let mut i: usize = 0;
    assert(shown.take(0) =~= Seq::<HitView>::empty());
    assert(head + hit_lines(shown.take(0)) =~= head);
    while i < n
        invariant
            i <= n <= hits@.len(),
            n == shown.len(),
            all == hit_views(hits@),
            shown == all.take(n as int),
            text@ == head + hit_lines(shown.take(i as int)),
        decreases n - i,
    {
        assert(shown.take(i + 1).drop_last() =~= shown.take(i as int));
        assert(shown.take(i + 1).last() == hits@[i as int]@);
        let hit = &hits[i];
        text.append(hit.path.as_str());
        text.append(":");
        push_decimal(&mut text, hit.line as u64);
        text.append(": ");
        text.append(hit.text.as_str());
        text.append("\n");
        assert(text@ =~= head + hit_lines(shown.take(i + 1)));
        i += 1;
    }
    assert(shown.take(n as int) =~= shown);
    text
}

/// The error for a pattern that was refused.
pub open spec fn bad_pattern(problem: Seq<char>) -> ErrorView {
    ErrorView::Edit("invalid regex: "@ + problem)
}

/// The error for a pattern that was refused.
pub fn invalid_pattern(problem: &str) -> (error: OverleafError)
    ensures
        error@ == bad_pattern(problem@),
{
    OverleafError::Edit(concat("invalid regex: ", problem))
}

/// Prepares a search. A pattern that is not valid is refused.
pub fn search_pattern(pattern: &str, case_insensitive: bool) -> (matcher: Result<Matcher>)
    ensures
        match matcher {
            Ok(m) => m.pattern() == pattern@ && m.ignores_case() == case_insensitive,
            Err(e) => exists|problem: Seq<char>| e@ == #[trigger] bad_pattern(problem),
        },
{
    match Matcher::compile(pattern, case_insensitive) {
        Ok(matcher) => Ok(matcher),
        Err(e) => Err(invalid_pattern(e.as_str())),
    }
}

/// Searches docs, by path, and reports the hits.
pub fn search(
    pattern: &str,
    matcher: &Matcher,
    contents: &Table<String>,
    max_matches: usize,
) -> (text: String)
    ensures
        text@ == search_text(
            pattern@,
            hits_across(
                key_list(contents@),
                contents@,
                matcher.pattern(),
                matcher.ignores_case(),
            ),
            contents@.dom().len(),
            max_matches as nat,
        ),
{
    let hits = find_hits(matcher, contents);
    let docs: usize = contents.len();
    proof {
        listed_keys_are_counted(contents.keys(), contents@);
    }
    render_hits(pattern, &hits, docs, max_matches)
}

// --- what a search keeps -------------------------------------------------

/// A doc is searched exactly when the whole project is, or when it lies at or
/// below the path that was asked for.
pub proof fn exactly_the_docs_in_scope_are_searched(
    docs: Seq<(Seq<char>, Seq<char>)>,
    scope: Option<Seq<char>>,
    doc: (Seq<char>, Seq<char>),
)
    ensures
        scoped(docs, scope).contains(doc) <==> docs.contains(doc) && in_scope(doc.0, scope),
    decreases docs.len(),
{
    if docs.len() > 0 {
        let short = docs.drop_last();
        exactly_the_docs_in_scope_are_searched(short, scope, doc);
        let before = scoped(short, scope);
        let now = scoped(docs, scope);
        if before.contains(doc) {
            assert(now[before.index_of(doc)] == doc);
        }
        if doc == docs.last() && in_scope(doc.0, scope) {
            assert(now[before.len() as int] == doc);
        }
        if now.contains(doc) {
            let k = now.index_of(doc);
            if k < before.len() {
                assert(before[k] == doc);
            }
        }
        if short.contains(doc) {
            assert(docs[short.index_of(doc)] == doc);
        }
        assert(docs[docs.len() - 1] == docs.last());
        if docs.contains(doc) {
            let k = docs.index_of(doc);
            if k < short.len() {
                assert(short[k] == doc);
            }
        }
    }
}

/// Without a path to search under every doc is searched; with one, the docs
/// whose path begins with all of its names, however deep they lie. Whatever
/// stands behind the path and a slash is searched, too.
pub proof fn scope_reaches_all_the_way_down(path: Seq<char>, under: Seq<char>, rest: Seq<char>)
    ensures
        in_scope(path, scope_of(None)),
        normalized(path) == path ==> (in_scope(path, scope_of(Some(under))) <==> leads(
            path_names(under),
            path_names(path),
        )),
        in_scope(normalized(under) + seq!['/'] + rest, scope_of(Some(under))),
        in_scope(normalized(under), scope_of(Some(under))),
{
    let top = normalized(under);
    normalizing_twice_is_normalizing_once(under);
    slash_path_keeps_plain_names(path_names(under));
    reveal_strlit("/");
    assert("/"@ =~= seq!['/']);
    let deep = top + seq!['/'] + rest;
    assert(deep.subrange(0, (top + "/"@).len() as int) =~= top + "/"@);
    if normalized(path) == path {
        a_path_below_begins_with_the_names(path, top);
        if begins_with(path, top + "/"@) {
            let behind = path.skip((top + "/"@).len() as int);
            assert(path =~= top + seq!['/'] + behind);
        }
        if exists|behind: Seq<char>| path == #[trigger] (top + seq!['/'] + behind) {
            let behind = choose|behind: Seq<char>| path == #[trigger] (top + seq!['/'] + behind);
            assert(path.subrange(0, (top + "/"@).len() as int) =~= top + "/"@);
        }
    }
}

/// A line of a doc is a hit exactly when the pattern matches it.
pub proof fn exactly_the_matching_lines_are_hits(
    path: Seq<char>,
    lines: Seq<Seq<char>>,
    pattern: Seq<char>,
    ignore_case: bool,
    line: nat,
)
    requires
        1 <= line <= lines.len(),
    ensures
        pattern_matches(pattern, ignore_case, lines[line - 1]) <==> exists|i: int|
            0 <= i < hits_in(path, lines, pattern, ignore_case).len() && (#[trigger] hits_in(
                path,
                lines,
                pattern,
                ignore_case,
            )[i]).line == line,
{
    let hits = hits_in(path, lines, pattern, ignore_case);
    let matching = match_flags(lines, pattern, ignore_case);
    lemma_flagged_lines(path, lines, matching, line);
    assert(matching[line - 1] == pattern_matches(pattern, ignore_case, lines[line - 1]));
    if matching[line - 1] {
        let i = choose|i: int|
            0 <= i < flagged_hits(path, lines, matching).len() && (#[trigger] flagged_hits(
                path,
                lines,
                matching,
            )[i]).line == line;
        assert(hits[i].line == line);
    }
}

proof fn lemma_flagged_lines(
    path: Seq<char>,
    lines: Seq<Seq<char>>,
    matching: Seq<bool>,
    line: nat,
)
    requires
        1 <= line <= lines.len(),
    ensures
        matching[line - 1] <==> exists|i: int|
            0 <= i < flagged_hits(path, lines, matching).len() && (#[trigger] flagged_hits(
                path,
                lines,
                matching,
            )[i]).line == line,
    decreases lines.len(),
{
    let short = lines.drop_last();
    let before = flagged_hits(path, short, matching);
    let now = flagged_hits(path, lines, matching);
    lemma_hit_lines_are_in_range(path, short, matching);
    if line == lines.len() {
        if matching[line - 1] {
            assert(now[before.len() as int].line == line);
        } else if exists|i: int| 0 <= i < now.len() && (#[trigger] now[i]).line == line {
            let i = choose|i: int| 0 <= i < now.len() && (#[trigger] now[i]).line == line;
            assert(before[i].line <= short.len());
        }
    } else {
        lemma_flagged_lines(path, short, matching, line);
        if exists|i: int| 0 <= i < before.len() && (#[trigger] before[i]).line == line {
            let i = choose|i: int| 0 <= i < before.len() && (#[trigger] before[i]).line == line;
            assert(now[i].line == line);
        }
        if exists|i: int| 0 <= i < now.len() && (#[trigger] now[i]).line == line {
            let i = choose|i: int| 0 <= i < now.len() && (#[trigger] now[i]).line == line;
            assert(before[i].line == line);
        }
    }
}

proof fn lemma_hit_lines_are_in_range(
    path: Seq<char>,
    lines: Seq<Seq<char>>,
    matching: Seq<bool>,
)
    ensures
        forall|i: int|
            0 <= i < flagged_hits(path, lines, matching).len() ==> 1 <= (#[trigger] flagged_hits(
                path,
                lines,
                matching,
            )[i]).line <= lines.len(),
    decreases lines.len(),
{
    if lines.len() > 0 {
        lemma_hit_lines_are_in_range(path, lines.drop_last(), matching);
        let before = flagged_hits(path, lines.drop_last(), matching);
        let now = flagged_hits(path, lines, matching);
        assert forall|i: int| 0 <= i < now.len() implies 1 <= (#[trigger] now[i]).line
            <= lines.len() by {
            if i < before.len() {
                assert(now[i] == before[i]);
            }
        }
    }
}

/// A hit names its doc and a line that matches, and shows the first two hundred
/// characters of that line as they stand, or all of a shorter one. The hits of
/// a doc come in the order of its lines, each line once.
pub proof fn hits_show_their_lines(
    path: Seq<char>,
    lines: Seq<Seq<char>>,
    matching: Seq<bool>,
    i: int,
)
    requires
        matching.len() == lines.len(),
        0 <= i < flagged_hits(path, lines, matching).len(),
    ensures
        ({
            let hit = flagged_hits(path, lines, matching)[i];
            let line = lines[hit.line - 1];
            &&& hit.path == path
            &&& 1 <= hit.line <= lines.len()
            &&& matching[hit.line - 1]
            &&& hit.text.len() == 200 || hit.text.len() < 200 && hit.text.len() == line.len()
            &&& hit.text.len() <= line.len()
            &&& forall|k: int| 0 <= k < hit.text.len() ==> #[trigger] hit.text[k] == line[k]
        }),
        forall|j: int|
            0 <= j < i ==> (#[trigger] flagged_hits(path, lines, matching)[j]).line < flagged_hits(
                path,
                lines,
                matching,
            )[i].line,
    decreases lines.len(),
{
    let n = lines.len() as int;
    lemma_flags_beyond(path, lines.drop_last(), matching, matching.drop_last());
    let before = flagged_hits(path, lines.drop_last(), matching);
    if i < before.len() {
        hits_show_their_lines(path, lines.drop_last(), matching.drop_last(), i);
        let hit = before[i];
        assert(lines.drop_last()[hit.line - 1] == lines[hit.line - 1]);
        assert forall|j: int| 0 <= j < i implies (#[trigger] flagged_hits(
            path,
            lines,
            matching,
        )[j]).line < hit.line by {
            assert(flagged_hits(path, lines, matching)[j] == before[j]);
        }
    } else {
        assert forall|j: int| 0 <= j < i implies (#[trigger] flagged_hits(
            path,
            lines,
            matching,
        )[j]).line < n by {
            assert(flagged_hits(path, lines, matching)[j] == before[j]);
            hits_show_their_lines(path, lines.drop_last(), matching.drop_last(), j);
        }
    }
}

proof fn lemma_flags_beyond(
    path: Seq<char>,
    lines: Seq<Seq<char>>,
    one: Seq<bool>,
    other: Seq<bool>,
)
    requires
        lines.len() <= one.len(),
        lines.len() <= other.len(),
        forall|i: int| 0 <= i < lines.len() ==> one[i] == other[i],
    ensures
        flagged_hits(path, lines, one) == flagged_hits(path, lines, other),
    decreases lines.len(),
{
    if lines.len() > 0 {
        lemma_flags_beyond(path, lines.drop_last(), one, other);
    }
}

/// Searching docs one after the other gives their hits one after the other: no
/// doc bears on the hits in another.
pub proof fn docs_are_searched_one_by_one(
    first: Seq<Seq<char>>,
    then: Seq<Seq<char>>,
    contents: Map<Seq<char>, Seq<char>>,
    pattern: Seq<char>,
    ignore_case: bool,
)
    ensures
        hits_across(first + then, contents, pattern, ignore_case) == hits_across(
            first,
            contents,
            pattern,
            ignore_case,
        ) + hits_across(then, contents, pattern, ignore_case),
        then.len() == 1 ==> hits_across(then, contents, pattern, ignore_case) == hits_in(
            then[0],
            split_on(contents[then[0]], '\n'),
            pattern,
            ignore_case,
        ),
    decreases then.len(),
{
    if then.len() == 0 {
        assert(first + then =~= first);
        assert(hits_across(first, contents, pattern, ignore_case) + Seq::<HitView>::empty()
            =~= hits_across(first, contents, pattern, ignore_case));
    } else {
        docs_are_searched_one_by_one(first, then.drop_last(), contents, pattern, ignore_case);
        assert((first + then).drop_last() =~= first + then.drop_last());
        assert((first + then).last() == then.last());
        let a = hits_across(first, contents, pattern, ignore_case);
        let b = hits_across(then.drop_last(), contents, pattern, ignore_case);
        let c = hits_in(
            then.last(),
            split_on(contents[then.last()], '\n'),
            pattern,
            ignore_case,
        );
        assert(a + b + c =~= a + (b + c));
        if then.len() == 1 {
            assert(then.drop_last() =~= Seq::<Seq<char>>::empty());
            assert(b + c =~= c);
        }
    }
}

/// The docs to search are the docs of the tree that lie in scope, each by its
/// path and id, and there is something to search exactly when there is one.
pub proof fn every_doc_in_scope_is_searched(
    tree: TreeView,
    project: Seq<char>,
    under: Option<Seq<char>>,
    id: Seq<char>,
    path: Seq<char>,
)
    requires
        tree.nodes.dom().finite(),
    ensures
        ({
            let wanted = tree.nodes.contains_key(id) && tree.nodes[id].kind == EntityKind::Doc
                && path_in(tree.nodes, id) == Some(path) && in_scope(path, scope_of(under));
            let found = search_docs(tree, project, under);
            &&& wanted ==> found is Ok
            &&& found is Ok ==> found->Ok_0.len() > 0
            &&& found is Ok ==> (found->Ok_0.contains((path, id)) <==> wanted)
            &&& found is Err ==> found->Err_0 is NotFound
        }),
{
    every_tree_has_a_listing(tree.nodes);
    let list = entry_list(tree.nodes);
    let docs = docs_of(list);
    let scope = scope_of(under);
    exactly_the_docs_in_scope_are_searched(docs, scope, (path, id));
    docs_are_the_doc_entries(list, path, id);
    let e = EntryView { path, kind: EntityKind::Doc, id };
    assert(list.contains(e) <==> is_entry(tree.nodes, e));
}

/// The report begins with the number of hits that it shows and quotes the
/// pattern as it was given. It shows as many hits as it may, from the first
/// on, and says so where there are more.
pub proof fn report_shows_the_first_hits(
    pattern: Seq<char>,
    hits: Seq<HitView>,
    docs: nat,
    most: nat,
)
    ensures
        hits.len() <= most ==> search_text(pattern, hits, docs, most) == decimal(hits.len())
            + " match(es) for `"@ + pattern + "` across "@ + decimal(docs) + " doc(s)\n"@
            + hit_lines(hits),
        hits.len() > most ==> search_text(pattern, hits, docs, most) == decimal(most)
            + " match(es) for `"@ + pattern + "` across "@ + decimal(docs)
            + " doc(s) (truncated)\n"@ + hit_lines(hits.take(most as int)),
{
    reveal_strlit(" doc(s)");
    reveal_strlit(" (truncated)");
    reveal_strlit("\n");
    reveal_strlit(" doc(s)\n");
    reveal_strlit(" doc(s) (truncated)\n");
    let head = decimal(if hits.len() <= most { hits.len() } else { most })
        + " match(es) for `"@ + pattern + "` across "@ + decimal(docs);
    assert(" doc(s)"@ + Seq::<char>::empty() + "\n"@ =~= " doc(s)\n"@);
    assert(" doc(s)"@ + " (truncated)"@ + "\n"@ =~= " doc(s) (truncated)\n"@);
    assert(head + " doc(s)"@ + Seq::<char>::empty() + "\n"@ =~= head + (" doc(s)"@
        + Seq::<char>::empty() + "\n"@));
    assert(head + " doc(s)"@ + " (truncated)"@ + "\n"@ =~= head + (" doc(s)"@
        + " (truncated)"@ + "\n"@));
}

/// Every hit has a row of its own in the report, in the order of the hits: what
/// comes before a hit and what comes after it do not bear on its row.
pub proof fn every_hit_has_a_row(before: Seq<HitView>, hit: HitView, after: Seq<HitView>)
    ensures
        hit_lines(before.push(hit) + after) == hit_lines(before) + hit.path + seq![':'] + decimal(
            hit.line,
        ) + seq![':', ' '] + hit.text + seq!['\n'] + hit_lines(after),
    decreases after.len(),
{
    reveal_strlit(":");
    reveal_strlit(": ");
    reveal_strlit("\n");
    assert(":"@ =~= seq![':']);
    assert(": "@ =~= seq![':', ' ']);
    assert("\n"@ =~= seq!['\n']);
    let up_to = before.push(hit);
    if after.len() == 0 {
        assert(up_to + after =~= up_to);
        assert(up_to.drop_last() =~= before);
        assert(hit_lines(up_to) + hit_lines(after) =~= hit_lines(up_to));
    } else {
        every_hit_has_a_row(before, hit, after.drop_last());
        assert((up_to + after).drop_last() =~= up_to + after.drop_last());
        assert((up_to + after).last() == after.last());
        let last = after.last();
        let head = hit_lines(before) + hit.path + seq![':'] + decimal(hit.line) + seq![':', ' ']
            + hit.text + seq!['\n'];
        assert(hit_lines(up_to + after) =~= head + (hit_lines(after.drop_last()) + last.path
            + ":"@ + decimal(last.line) + ": "@ + last.text + "\n"@));
    }
}

} // verus!
