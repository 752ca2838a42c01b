//! Decision logic behind the remote "tool" layer that exposes runner
//! operations to clients.
//!
//! The tool layer itself talks to the runner as a black-box subprocess
//! and re-serializes results as JSON; that plumbing stays outside this
//! library.  What is verified here is every rule those tools apply to
//! plain values: classifying recipes by their agent permission,
//! parsing evaluated variable listings, assembling the argument vector
//! for a pass-through execution request, and shaping success or failure
//! results from a captured invocation.

use vstd::prelude::*;
use vstd::string::StrSliceExecFns;
use vstd::string::StringExecFns;

use crate::text::find_newline;
use crate::text::strip_trailing_cr;

verus! {

/// Captured result of invoking the runner as a subprocess.
pub struct JustOutput {
    pub stdout: String,
    pub stderr: String,
    pub success: bool,
}

/// Tool dumping the full recipe-definition file as structured data.
pub struct DumpJustfileTool {
    pub just_binary: String,
}

/// Tool listing recipes, partitioned by agent permission.
pub struct ListRecipesTool {
    pub just_binary: String,
}

/// Tool listing variables with their evaluated values.
pub struct ListVariablesTool {
    pub just_binary: String,
}

/// Tool executing one recipe with arguments, overrides and dry-run.
pub struct RunRecipeTool {
    pub just_binary: String,
}

/// Tool showing one recipe's source.
pub struct ShowRecipeTool {
    pub just_binary: String,
}

/// One recipe's metadata as the permission rules read it: its name and,
/// for each of its attributes in declared order, the attribute's
/// `agents` value when it carries one.
pub struct RecipeMeta {
    pub name: String,
    pub agents: Vec<Option<String>>,
}

/// The first `agents` value among a recipe's attributes.
pub open spec fn first_agents_value(attrs: Seq<Option<String>>) -> Option<String>
    decreases attrs.len(),
{
    if attrs.len() == 0 {
        None
    } else {
        match attrs[0] {
            Some(v) => Some(v),
            None => first_agents_value(attrs.skip(1)),
        }
    }
}

/// A recipe's agent permission: its first `agents` attribute value, or
/// `per-request` when it declares none.
pub open spec fn spec_permission(attrs: Seq<Option<String>>) -> Seq<char> {
    match first_agents_value(attrs) {
        Some(v) => v@,
        None => "per-request"@,
    }
}

/// Reads a recipe's agent permission from its attributes.
pub fn agent_permission(attrs: &Vec<Option<String>>) -> (r: String)
    ensures
        r@ == spec_permission(attrs@),
{
    let n = attrs.len();
    proof {
        assert(attrs@.skip(0) =~= attrs@);
    }
    let mut i: usize = 0;
    while i < n
        invariant
            i <= n,
            n == attrs@.len(),
            spec_permission(attrs@) == spec_permission(attrs@.skip(i as int)),
            forall|k: int| 0 <= k < i ==> attrs@[k] is None,
        decreases n - i,
    {
        let found = match &attrs[i] {
            Some(v) => Some(v.clone()),
            None => None,
        };
        if let Some(v) = found {
            proof {
                assert(attrs@.skip(i as int)[0] == attrs@[i as int]);
            }
            return v;
        }
        proof {
            assert(attrs@.skip(i as int)[0] == attrs@[i as int]);
            assert(attrs@.skip(i as int).skip(1) =~= attrs@.skip(i + 1));
        }
        i = i + 1;
    }
    proof {
        assert(attrs@.skip(n as int).len() == 0);
    }
    String::from_str("per-request")
}

/// The permission rule applied from a recipe lookup: a recipe that could
/// not be found or read at all is treated as `per-request`.
pub fn get_agent_permission(recipe_attrs: Option<&Vec<Option<String>>>) -> (r: String)
    ensures
        r@ == match recipe_attrs {
            Some(attrs) => spec_permission(attrs@),
            None => "per-request"@,
        },
{
    match recipe_attrs {
        Some(attrs) => agent_permission(attrs),
        None => String::from_str("per-request"),
    }
}

pub open spec fn is_carte_blanche(m: RecipeMeta) -> bool {
    spec_permission(m.agents@) == "always-allowed"@
}

pub open spec fn is_excluded(m: RecipeMeta) -> bool {
    spec_permission(m.agents@) == "never-allowed"@
}

/// Recipes that require per-request confirmation: everything neither
/// always allowed nor excluded.
pub open spec fn is_bureaucratic(m: RecipeMeta) -> bool {
    !is_carte_blanche(m) && !is_excluded(m)
}

/// Partitions recipes by agent permission into the always-allowed list
/// and the requires-confirmation list, in declared order; recipes marked
/// never-allowed appear in neither.  Returned values are indices into
/// `metas`.
pub fn partition_recipes(metas: &Vec<RecipeMeta>) -> (r: (Vec<usize>, Vec<usize>))
    ensures
        forall|a: int|
            0 <= a < r.0@.len() ==> (((#[trigger] r.0@[a]) as int) < metas@.len()
                && is_carte_blanche(metas@[r.0@[a] as int])),
        forall|a: int, b: int| 0 <= a < b < r.0@.len() ==> r.0@[a] < r.0@[b],
        forall|i: int|
            0 <= i < metas@.len() && is_carte_blanche(#[trigger] metas@[i])
                ==> crate::plan::seq_has(r.0@, i),
        forall|a: int|
            0 <= a < r.1@.len() ==> (((#[trigger] r.1@[a]) as int) < metas@.len()
                && is_bureaucratic(metas@[r.1@[a] as int])),
        forall|a: int, b: int| 0 <= a < b < r.1@.len() ==> r.1@[a] < r.1@[b],
        forall|i: int|
            0 <= i < metas@.len() && is_bureaucratic(#[trigger] metas@[i])
                ==> crate::plan::seq_has(r.1@, i),
{
    let n = metas.len();
    let mut carte: Vec<usize> = Vec::new();
    let mut bureau: Vec<usize> = Vec::new();
    let mut i: usize = 0;
    while i < n
        invariant
            i <= n,
            n == metas@.len(),
            forall|a: int|
                0 <= a < carte@.len() ==> (((#[trigger] carte@[a]) as int) < i
                    && is_carte_blanche(metas@[carte@[a] as int])),
            forall|a: int, b: int| 0 <= a < b < carte@.len() ==> carte@[a] < carte@[b],
            forall|k: int|
                0 <= k < i && is_carte_blanche(#[trigger] metas@[k]) ==> crate::plan::seq_has(
                    carte@,
                    k,
                ),
            forall|a: int|
                0 <= a < bureau@.len() ==> (((#[trigger] bureau@[a]) as int) < i
                    && is_bureaucratic(metas@[bureau@[a] as int])),
            forall|a: int, b: int| 0 <= a < b < bureau@.len() ==> bureau@[a] < bureau@[b],
            forall|k: int|
                0 <= k < i && is_bureaucratic(#[trigger] metas@[k]) ==> crate::plan::seq_has(
                    bureau@,
                    k,
                ),
        decreases n - i,
    {
        let ghost carte0 = carte@;
        let ghost bureau0 = bureau@;
        let perm = agent_permission(&metas[i].agents);
        let always = String::from_str("always-allowed");
        let never = String::from_str("never-allowed");
        if perm == always {
            carte.push(i);
        } else if !(perm == never) {
            bureau.push(i);
        }
        proof {
            assert forall|k: int|
                0 <= k < i + 1 && is_carte_blanche(#[trigger] metas@[k]) implies crate::plan::seq_has(
                carte@,
                k,
            ) by {
                if k < i {
                    let a = choose|a: int| 0 <= a < carte0.len() && carte0[a] as int == k;
                    assert(carte@[a] as int == k);
                } else {
                    assert(carte@[carte@.len() - 1] as int == k);
                }
            }
            assert forall|k: int|
                0 <= k < i + 1 && is_bureaucratic(#[trigger] metas@[k]) implies crate::plan::seq_has(
                bureau@,
                k,
            ) by {
                if k < i {
                    let a = choose|a: int| 0 <= a < bureau0.len() && bureau0[a] as int == k;
                    assert(bureau@[a] as int == k);
                } else {
                    assert(bureau@[bureau@.len() - 1] as int == k);
                }
            }
        }
        i = i + 1;
    }
    (carte, bureau)
}

/// Shapes the result of a dump request: the captured standard output on
/// success, a message carrying the captured error stream otherwise.
pub fn dump_result(output: JustOutput) -> (r: Result<String, String>)
    ensures
        output.success ==> (r matches Ok(s) && s@ == output.stdout@),
        !output.success ==> (r matches Err(e) && e@ == "just --dump failed: "@
            + output.stderr@),
{
    if output.success {
        Ok(output.stdout)
    } else {
        let mut e = String::from_str("just --dump failed: ");
        e.append(output.stderr.as_str());
        Err(e)
    }
}

/// Shapes the result of a show request, as [`dump_result`] does for
/// dumps.
pub fn show_result(output: JustOutput) -> (r: Result<String, String>)
    ensures
        output.success ==> (r matches Ok(s) && s@ == output.stdout@),
        !output.success ==> (r matches Err(e) && e@ == "just --show failed: "@
            + output.stderr@),
{
    if output.success {
        Ok(output.stdout)
    } else {
        let mut e = String::from_str("just --show failed: ");
        e.append(output.stderr.as_str());
        Err(e)
    }
}

/// The lines of `rest` read with `cur` as the partial line already
/// consumed: split at `'\n'`, with `"\r\n"` counting as one terminator,
/// a final unterminated line kept, and a final empty segment dropped.
pub open spec fn lines_from(rest: Seq<char>, cur: Seq<char>) -> Seq<Seq<char>>
    decreases rest.len(),
{
    if rest.len() == 0 {
        if cur.len() == 0 {
            Seq::empty()
        } else {
            seq![cur]
        }
    } else if rest[0] == '\n' {
        seq![strip_trailing_cr(cur)] + lines_from(rest.skip(1), Seq::empty())
    } else {
        lines_from(rest.skip(1), cur.push(rest[0]))
    }
}

pub open spec fn spec_lines(s: Seq<char>) -> Seq<Seq<char>> {
    lines_from(s, Seq::empty())
}

pub open spec fn line_views(ls: Seq<String>) -> Seq<Seq<char>> {
    ls.map_values(|l: String| l@)
}

proof fn lemma_lines_line(rest: Seq<char>, cur: Seq<char>, i: int)
    requires
        0 <= i < rest.len(),
        rest[i] == '\n',
        forall|j: int| 0 <= j < i ==> rest[j] != '\n',
    ensures
        lines_from(rest, cur) == seq![strip_trailing_cr(cur + rest.take(i))] + lines_from(
            rest.skip(i + 1),
            Seq::empty(),
        ),
    decreases i,
{
    if i == 0 {
        assert(cur + rest.take(0) =~= cur);
        assert(rest.skip(1) =~= rest.skip(i + 1));
    } else {
        lemma_lines_line(rest.skip(1), cur.push(rest[0]), i - 1);
        assert(cur.push(rest[0]) + rest.skip(1).take(i - 1) =~= cur + rest.take(i));
        assert(rest.skip(1).skip(i) =~= rest.skip(i + 1));
    }
}

proof fn lemma_lines_tail(rest: Seq<char>, cur: Seq<char>)
    requires
        forall|j: int| 0 <= j < rest.len() ==> rest[j] != '\n',
    ensures
        lines_from(rest, cur) == if cur.len() + rest.len() == 0 {
            Seq::<Seq<char>>::empty()
        } else {
            seq![cur + rest]
        },
    decreases rest.len(),
{
    if rest.len() == 0 {
        assert(cur + rest =~= cur);
    } else {
        lemma_lines_tail(rest.skip(1), cur.push(rest[0]));
        assert(cur.push(rest[0]) + rest.skip(1) =~= cur + rest);
    }
}

/// Splits text into lines, exactly as [`spec_lines`] reads it.
pub fn split_into_lines(s: &str) -> (r: Vec<String>)
    ensures
        line_views(r@) == spec_lines(s@),
{
    let n = s.unicode_len();
    let mut r: Vec<String> = Vec::new();
    proof {
        assert(s@.skip(0) =~= s@);
        assert(line_views(r@) =~= Seq::<Seq<char>>::empty());
    }
    let mut start: usize = 0;
    while start < n
        invariant
            start <= n,
            n as nat == s@.len(),
            line_views(r@) + lines_from(s@.skip(start as int), Seq::empty()) == spec_lines(s@),
        decreases n - start,
    {
        let ghost pre = r@;
        let ghost tail = s@.skip(start as int);
        let j = find_newline(s, start, n);
        if j < n {
            let end = if j > start && s.get_char(j - 1) == '\r' {
                j - 1
            } else {
                j
            };
            r.push(String::from_str(s.substring_char(start, end)));
            proof {
                lemma_lines_line(tail, Seq::empty(), j - start);
                assert(Seq::<char>::empty() + tail.take(j - start) =~= s@.subrange(
                    start as int,
                    j as int,
                ));
                assert(strip_trailing_cr(s@.subrange(start as int, j as int)) =~= s@.subrange(
                    start as int,
                    end as int,
                ));
                assert(tail.skip(j - start + 1) =~= s@.skip(j + 1));
                assert(line_views(r@) =~= line_views(pre).push(s@.subrange(
                    start as int,
                    end as int,
                )));
                assert(line_views(r@) + lines_from(s@.skip(j + 1), Seq::empty()) =~= spec_lines(
                    s@,
                ));
            }
            start = j + 1;
        } else {
            r.push(String::from_str(s.substring_char(start, n)));
            proof {
                lemma_lines_tail(tail, Seq::empty());
                assert(Seq::<char>::empty() + tail =~= s@.subrange(start as int, n as int));
                assert(line_views(r@) =~= line_views(pre).push(s@.subrange(
                    start as int,
                    n as int,
                )));
                assert(s@.skip(n as int) =~= Seq::<char>::empty());
                assert(line_views(r@) + lines_from(s@.skip(n as int), Seq::empty()) =~= spec_lines(
                    s@,
                ));
            }
            start = n;
        }
    }
    proof {
        assert(s@.skip(n as int) =~= Seq::<char>::empty());
        assert(line_views(r@) + Seq::<Seq<char>>::empty() =~= line_views(r@));
    }
    r
}

/// A variable separator ` := ` starts at `i`.
pub open spec fn sep_at(s: Seq<char>, i: int) -> bool {
    &&& 0 <= i
    &&& i + 4 <= s.len()
    &&& s[i] == ' '
    &&& s[i + 1] == ':'
    &&& s[i + 2] == '='
    &&& s[i + 3] == ' '
}

pub open spec fn has_sep(s: Seq<char>) -> bool {
    exists|i: int| sep_at(s, i)
}

/// Index of the first ` := ` separator; `s.len()` when there is none.
pub open spec fn first_sep(s: Seq<char>) -> int
    decreases s.len(),
{
    if sep_at(s, 0) {
        0
    } else if s.len() == 0 {
        0
    } else {
        1 + first_sep(s.skip(1))
    }
}

proof fn lemma_first_sep_is(s: Seq<char>, i: int)
    requires
        sep_at(s, i),
        forall|j: int| 0 <= j < i ==> !sep_at(s, j),
    ensures
        first_sep(s) == i,
        has_sep(s),
    decreases i,
{
    if i > 0 {
        assert(sep_at(s.skip(1), i - 1));
        assert forall|j: int| 0 <= j < i - 1 implies !sep_at(s.skip(1), j) by {
            if sep_at(s.skip(1), j) {
                assert(sep_at(s, j + 1));
            }
        }
        lemma_first_sep_is(s.skip(1), i - 1);
    }
}

/// ASCII whitespace, as trimmed from variable names.
pub open spec fn is_space(c: char) -> bool {
    c == ' ' || c == '\t' || c == '\n' || c == '\r'
}

pub open spec fn spec_trim_start(s: Seq<char>) -> Seq<char>
    decreases s.len(),
{
    if s.len() > 0 && is_space(s[0]) {
        spec_trim_start(s.skip(1))
    } else {
        s
    }
}

pub open spec fn spec_trim_end(s: Seq<char>) -> Seq<char>
    decreases s.len(),
{
    if s.len() > 0 && is_space(s.last()) {
        spec_trim_end(s.drop_last())
    } else {
        s
    }
}

/// ASCII whitespace stripped from both ends.
pub open spec fn spec_trim(s: Seq<char>) -> Seq<char> {
    spec_trim_end(spec_trim_start(s))
}

pub open spec fn spec_trim_quote_start(s: Seq<char>) -> Seq<char>
    decreases s.len(),
{
    if s.len() > 0 && s[0] == '"' {
        spec_trim_quote_start(s.skip(1))
    } else {
        s
    }
}

pub open spec fn spec_trim_quote_end(s: Seq<char>) -> Seq<char>
    decreases s.len(),
{
    if s.len() > 0 && s.last() == '"' {
        spec_trim_quote_end(s.drop_last())
    } else {
        s
    }
}

/// All leading and trailing double quotes stripped.
pub open spec fn spec_trim_quotes(s: Seq<char>) -> Seq<char> {
    spec_trim_quote_end(spec_trim_quote_start(s))
}

fn is_space_char(c: char) -> (b: bool)
    ensures
        b == is_space(c),
{
    c == ' ' || c == '\t' || c == '\n' || c == '\r'
}

fn trim_range(s: &str, from: usize, to: usize) -> (r: (usize, usize))
    requires
        from <= to,
        to as nat <= s@.len(),
    ensures
        from <= r.0 <= r.1 <= to,
        s@.subrange(r.0 as int, r.1 as int) == spec_trim(s@.subrange(from as int, to as int)),
{
    let mut lo = from;
    let mut cont = true;
    while cont && lo < to
        invariant
            from <= lo <= to,
            to as nat <= s@.len(),
            spec_trim_start(s@.subrange(from as int, to as int)) == spec_trim_start(
                s@.subrange(lo as int, to as int),
            ),
            !cont ==> lo < to && !is_space(s@[lo as int]),
        decreases (to - lo) + (if cont {
            1int
        } else {
            0int
        }),
    {
        let c = s.get_char(lo);
        if is_space_char(c) {
            proof {
                assert(s@.subrange(lo as int, to as int).skip(1) =~= s@.subrange(
                    lo + 1 as int,
                    to as int,
                ));
            }
            lo = lo + 1;
        } else {
            cont = false;
        }
    }
    proof {
        assert(spec_trim_start(s@.subrange(lo as int, to as int)) == s@.subrange(
            lo as int,
            to as int,
        ));
    }
    let mut hi = to;
    let mut cont2 = true;
    while cont2 && lo < hi
        invariant
            lo <= hi <= to,
            to as nat <= s@.len(),
            spec_trim_end(s@.subrange(lo as int, to as int)) == spec_trim_end(
                s@.subrange(lo as int, hi as int),
            ),
            !cont2 ==> lo < hi && !is_space(s@[hi - 1]),
        decreases (hi - lo) + (if cont2 {
            1int
        } else {
            0int
        }),
    {
        let c = s.get_char(hi - 1);
        if is_space_char(c) {
            proof {
                assert(s@.subrange(lo as int, hi as int).drop_last() =~= s@.subrange(
                    lo as int,
                    hi - 1,
                ));
            }
            hi = hi - 1;
        } else {
            cont2 = false;
        }
    }
    proof {
        assert(spec_trim_end(s@.subrange(lo as int, hi as int)) == s@.subrange(
            lo as int,
            hi as int,
        ));
    }
    (lo, hi)
}

fn trim_quotes_range(s: &str, from: usize, to: usize) -> (r: (usize, usize))
    requires
        from <= to,
        to as nat <= s@.len(),
    ensures
        from <= r.0 <= r.1 <= to,
        s@.subrange(r.0 as int, r.1 as int) == spec_trim_quotes(
            s@.subrange(from as int, to as int),
        ),
{
    let mut lo = from;
    let mut cont = true;
    while cont && lo < to
        invariant
            from <= lo <= to,
            to as nat <= s@.len(),
            spec_trim_quote_start(s@.subrange(from as int, to as int)) == spec_trim_quote_start(
                s@.subrange(lo as int, to as int),
            ),
            !cont ==> lo < to && s@[lo as int] != '"',
        decreases (to - lo) + (if cont {
            1int
        } else {
            0int
        }),
    {
        let c = s.get_char(lo);
        if c == '"' {
            proof {
                assert(s@.subrange(lo as int, to as int).skip(1) =~= s@.subrange(
                    lo + 1 as int,
                    to as int,
                ));
            }
            lo = lo + 1;
        } else {
            cont = false;
        }
    }
    proof {
        assert(spec_trim_quote_start(s@.subrange(lo as int, to as int)) == s@.subrange(
            lo as int,
            to as int,
        ));
    }
    let mut hi = to;
    let mut cont2 = true;
    while cont2 && lo < hi
        invariant
            lo <= hi <= to,
            to as nat <= s@.len(),
            spec_trim_quote_end(s@.subrange(lo as int, to as int)) == spec_trim_quote_end(
                s@.subrange(lo as int, hi as int),
            ),
            !cont2 ==> lo < hi && s@[hi - 1] != '"',
        decreases (hi - lo) + (if cont2 {
            1int
        } else {
            0int
        }),
    {
        let c = s.get_char(hi - 1);
        if c == '"' {
            proof {
                assert(s@.subrange(lo as int, hi as int).drop_last() =~= s@.subrange(
                    lo as int,
                    hi - 1,
                ));
            }
            hi = hi - 1;
        } else {
            cont2 = false;
        }
    }
    proof {
        assert(spec_trim_quote_end(s@.subrange(lo as int, hi as int)) == s@.subrange(
            lo as int,
            hi as int,
        ));
    }
    (lo, hi)
}

/// What one line of an evaluated variable listing means: at the first
/// ` := ` separator, the trimmed left side names the variable and the
/// right side, stripped of surrounding double quotes, is its value.
pub open spec fn spec_parse_line(l: Seq<char>) -> Option<(Seq<char>, Seq<char>)> {
    if has_sep(l) {
        Some((spec_trim(l.take(first_sep(l))), spec_trim_quotes(l.skip(first_sep(l) + 4))))
    } else {
        None
    }
}

/// Parses one `name := value` line of an evaluated variable listing.
pub fn parse_evaluated_line(line: &str) -> (r: Option<(String, String)>)
    ensures
        (r is Some) == has_sep(line@),
        r matches Some(p) ==> spec_parse_line(line@) == Some((p.0@, p.1@)),
{
    let n = line.unicode_len();
    let mut i: usize = 0;
    let mut found = false;
    while !found && n >= 4 && i <= n - 4
        invariant
            n as nat == line@.len(),
            i <= n,
            forall|j: int| 0 <= j < i ==> !sep_at(line@, j),
            found ==> i + 4 <= n && sep_at(line@, i as int),
        decreases (n - i) + (if found {
            0int
        } else {
            1int
        }),
    {
        if line.get_char(i) == ' ' && line.get_char(i + 1) == ':' && line.get_char(i + 2) == '='
            && line.get_char(i + 3) == ' ' {
            found = true;
        } else {
            i = i + 1;
        }
    }
    if !found {
        proof {
            if has_sep(line@) {
                let j = choose|j: int| sep_at(line@, j);
                assert(j <= n - 4);
                assert(false);
            }
        }
        return None;
    }
    proof {
        lemma_first_sep_is(line@, i as int);
    }
    let (nlo, nhi) = trim_range(line, 0, i);
    let name = String::from_str(line.substring_char(nlo, nhi));
    let (vlo, vhi) = trim_quotes_range(line, i + 4, n);
    let value = String::from_str(line.substring_char(vlo, vhi));
    proof {
        assert(line@.subrange(0, i as int) =~= line@.take(i as int));
        assert(line@.subrange(i + 4 as int, n as int) =~= line@.skip(i + 4));
    }
    Some((name, value))
}

/// The variable/value pairs read from a sequence of evaluated lines, in
/// order, with unparsable lines dropped.
pub open spec fn parsed_entries(ls: Seq<Seq<char>>) -> Seq<(Seq<char>, Seq<char>)>
    decreases ls.len(),
{
    if ls.len() == 0 {
        Seq::empty()
    } else {
        let rest = parsed_entries(ls.skip(1));
        match spec_parse_line(ls[0]) {
            Some(p) => seq![p] + rest,
            None => rest,
        }
    }
}

proof fn lemma_parsed_entries_concat(a: Seq<Seq<char>>, b: Seq<Seq<char>>)
    ensures
        parsed_entries(a + b) == parsed_entries(a) + parsed_entries(b),
    decreases a.len(),
{
    if a.len() == 0 {
        assert(a + b =~= b);
        assert(parsed_entries(a) + parsed_entries(b) =~= parsed_entries(b));
    } else {
        lemma_parsed_entries_concat(a.skip(1), b);
        assert((a + b).skip(1) =~= a.skip(1) + b);
        assert((a + b)[0] == a[0]);
        match spec_parse_line(a[0]) {
            Some(p) => {
                assert(seq![p] + (parsed_entries(a.skip(1)) + parsed_entries(b)) =~= (seq![p]
                    + parsed_entries(a.skip(1))) + parsed_entries(b));
            },
            None => {},
        }
    }
}

pub open spec fn pair_views(r: Seq<(String, String)>) -> Seq<(Seq<char>, Seq<char>)> {
    r.map_values(|p: (String, String)| (p.0@, p.1@))
}

/// Reads every `name := value` pair out of the captured output of an
/// evaluated variable listing, in order.
pub fn evaluated_values(stdout: &str) -> (r: Vec<(String, String)>)
    ensures
        pair_views(r@) == parsed_entries(spec_lines(stdout@)),
{
    let lines = split_into_lines(stdout);
    let mut r: Vec<(String, String)> = Vec::new();
    let n = lines.len();
    proof {
        assert(line_views(lines@).take(0) =~= Seq::<Seq<char>>::empty());
        assert(pair_views(r@) =~= Seq::<(Seq<char>, Seq<char>)>::empty());
    }
    let mut i: usize = 0;
    while i < n
        invariant
            i <= n,
            n == lines@.len(),
            line_views(lines@) == spec_lines(stdout@),
            pair_views(r@) == parsed_entries(line_views(lines@).take(i as int)),
        decreases n - i,
    {
        let ghost pre = r@;
        let ghost lv = line_views(lines@);
        match parse_evaluated_line(lines[i].as_str()) {
            Some(p) => {
                r.push(p);
            },
            None => {},
        }
        proof {
            assert(lv.take(i + 1) =~= lv.take(i as int) + seq![lv[i as int]]);
            lemma_parsed_entries_concat(lv.take(i as int), seq![lv[i as int]]);
            assert(seq![lv[i as int]].skip(1) =~= Seq::<Seq<char>>::empty());
            assert(lv[i as int] == lines@[i as int]@);
            assert(seq![lv[i as int]].len() == 1);
            assert(seq![lv[i as int]][0] == lv[i as int]);
            assert(parsed_entries(Seq::<Seq<char>>::empty()) =~= Seq::<(
                Seq<char>,
                Seq<char>,
            )>::empty());
            assert(parsed_entries(seq![lv[i as int]].skip(1)) =~= Seq::<(
                Seq<char>,
                Seq<char>,
            )>::empty());
            match spec_parse_line(lv[i as int]) {
                Some(q) => {
                    assert(parsed_entries(seq![lv[i as int]]) =~= seq![q] + parsed_entries(
                        seq![lv[i as int]].skip(1),
                    ));
                    assert(parsed_entries(seq![lv[i as int]]) =~= seq![q]);
                    assert(pair_views(r@) =~= pair_views(pre).push((q.0, q.1)));
                    assert(pair_views(r@) =~= parsed_entries(lv.take(i + 1)));
                },
                None => {
                    assert(parsed_entries(seq![lv[i as int]]) =~= Seq::<(
                        Seq<char>,
                        Seq<char>,
                    )>::empty());
                    assert(pair_views(r@) =~= parsed_entries(lv.take(i + 1)));
                },
            }
        }
        i = i + 1;
    }
    proof {
        assert(line_views(lines@).take(n as int) =~= line_views(lines@));
    }
    r
}

/// The value recorded for `name`: the last matching pair, as a map
/// filled in listing order would record it.
pub open spec fn spec_lookup(pairs: Seq<(String, String)>, name: Seq<char>) -> Option<Seq<char>>
    decreases pairs.len(),
{
    if pairs.len() == 0 {
        None
    } else if pairs.last().0@ == name {
        Some(pairs.last().1@)
    } else {
        spec_lookup(pairs.drop_last(), name)
    }
}

/// Looks a variable's evaluated value up by name.
pub fn lookup_value(pairs: &Vec<(String, String)>, name: &String) -> (r: Option<String>)
    ensures
        match r {
            Some(v) => spec_lookup(pairs@, name@) == Some(v@),
            None => spec_lookup(pairs@, name@) is None,
        },
{
    let n = pairs.len();
    proof {
        assert(pairs@.take(n as int) =~= pairs@);
    }
    let mut i: usize = n;
    while i > 0
        invariant
            i <= n,
            n == pairs@.len(),
            spec_lookup(pairs@, name@) == spec_lookup(pairs@.take(i as int), name@),
        decreases i,
    {
        proof {
            assert(pairs@.take(i as int).last() == pairs@[i - 1]);
            assert(pairs@.take(i as int).drop_last() =~= pairs@.take(i - 1));
        }
        if pairs[i - 1].0 == *name {
            return Some(pairs[i - 1].1.clone());
        }
        i = i - 1;
    }
    None
}

/// The argument vector for a pass-through execution request: the
/// dry-run flag when asked for, then each variable override as
/// `name=value` in order, then the recipe name, then its positional
/// arguments in order.
pub open spec fn dry_run_offset(dry_run: bool) -> int {
    if dry_run {
        1
    } else {
        0
    }
}

pub fn build_run_args(
    recipe: &String,
    args: &Vec<String>,
    overrides: &Vec<(String, String)>,
    dry_run: bool,
) -> (r: Vec<String>)
    ensures
        r@.len() == dry_run_offset(dry_run) + overrides@.len() + 1 + args@.len(),
        dry_run ==> r@[0]@ == "--dry-run"@,
        forall|k: int|
            0 <= k < overrides@.len() ==> (#[trigger] r@[dry_run_offset(dry_run) + k])@
                == overrides@[k].0@ + "="@ + overrides@[k].1@,
        r@[dry_run_offset(dry_run) + overrides@.len()]@ == recipe@,
        forall|k: int|
            0 <= k < args@.len() ==> (#[trigger] r@[dry_run_offset(dry_run) + overrides@.len() + 1
                + k])@ == args@[k]@,
{
    let ghost off: int = dry_run_offset(dry_run);
    let mut r: Vec<String> = Vec::new();
    if dry_run {
        r.push(String::from_str("--dry-run"));
    }
    let mut k: usize = 0;
    while k < overrides.len()
        invariant
            k <= overrides@.len(),
            r@.len() == off + k,
            off == dry_run_offset(dry_run),
            dry_run ==> r@[0]@ == "--dry-run"@,
            forall|m: int|
                0 <= m < k ==> (#[trigger] r@[off + m])@ == overrides@[m].0@ + "="@
                    + overrides@[m].1@,
        decreases overrides@.len() - k,
    {
        let mut s = overrides[k].0.clone();
        s.append("=");
        s.append(overrides[k].1.as_str());
        r.push(s);
        k = k + 1;
    }
    r.push(recipe.clone());
    let mut a: usize = 0;
    while a < args.len()
        invariant
            a <= args@.len(),
            r@.len() == off + overrides@.len() + 1 + a,
            off == dry_run_offset(dry_run),
            dry_run ==> r@[0]@ == "--dry-run"@,
            forall|m: int|
                0 <= m < overrides@.len() ==> (#[trigger] r@[off + m])@ == overrides@[m].0@ + "="@
                    + overrides@[m].1@,
            r@[off + overrides@.len()]@ == recipe@,
            forall|m: int| 0 <= m < a ==> (#[trigger] r@[off + overrides@.len() + 1 + m])@ == args@[m]@,
        decreases args@.len() - a,
    {
        r.push(args[a].clone());
        a = a + 1;
    }
    r
}

} // verus!
