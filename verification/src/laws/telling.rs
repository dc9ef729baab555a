//! What reports tell: that nothing of what they are about is left out.

use vstd::prelude::*;

use crate::ci;
use crate::ci::PlanView;
use crate::cli;
use crate::cloud;
use crate::config;
use crate::config::ConfigView;
use crate::repo::Files;
use crate::status;
use crate::status::{ChangeView, RequirementView, RoleStatusView, SignerView};
use crate::strmap;
use crate::text;
use crate::time;

verus! {

/// Whether the text has the words in it.
#[verifier::opaque]
pub open spec fn mentions(s: Seq<char>, words: Seq<char>) -> bool {
    exists|a: Seq<char>, b: Seq<char>| s == #[trigger] (a + words + b)
}

/// A text has itself in it, and what either of its halves has.
proof fn adding_keeps_what_is_there()
    ensures
        forall|s: Seq<char>| #[trigger] mentions(s, s),
        forall|a: Seq<char>, b: Seq<char>, words: Seq<char>|
            mentions(a, words) || mentions(b, words) ==> #[trigger] mentions(a + b, words),
{
    reveal(mentions);
    let none = Seq::<char>::empty();
    assert forall|s: Seq<char>| #[trigger] mentions(s, s) by {
        assert(s =~= none + s + none);
    }
    assert forall|a: Seq<char>, b: Seq<char>, words: Seq<char>|
        mentions(a, words) || mentions(b, words) implies #[trigger] mentions(a + b, words) by {
        if mentions(a, words) {
            let (x, y) = choose|x: Seq<char>, y: Seq<char>| a == #[trigger] (x + words + y);
            assert(a + b =~= x + words + (y + b));
        } else {
            let (x, y) = choose|x: Seq<char>, y: Seq<char>| b == #[trigger] (x + words + y);
            assert(a + b =~= (a + x) + words + y);
        }
    }
}

/// What is in words that are in a text is in the text.
pub proof fn mentioned_through(s: Seq<char>, middle: Seq<char>, words: Seq<char>)
    requires
        mentions(s, middle),
        mentions(middle, words),
    ensures
        mentions(s, words),
{
    reveal(mentions);
    let (a, b) = choose|a: Seq<char>, b: Seq<char>| s == #[trigger] (a + middle + b);
    let (x, y) = choose|x: Seq<char>, y: Seq<char>| middle == #[trigger] (x + words + y);
    assert(s =~= (a + x) + words + (y + b));
}

/// Each of the parts is in what they are joined to.
pub proof fn parts_are_mentioned(parts: Seq<Seq<char>>, sep: Seq<char>, i: int)
    requires
        0 <= i < parts.len(),
    ensures
        mentions(text::joined(parts, sep), parts[i]),
    decreases parts.len(),
{
    adding_keeps_what_is_there();
    if parts.len() > 1 {
        let rest = parts.drop_last();
        if i < rest.len() {
            parts_are_mentioned(rest, sep, i);
            assert(rest[i] == parts[i]);
        } else {
            assert(parts.last() == parts[i]);
        }
        assert(mentions(text::joined(rest, sep) + sep, parts[i]) || mentions(
            parts.last(),
            parts[i],
        ));
    }
}

/// Whether the text names each of the keys.
pub open spec fn names_all(s: Seq<char>, keys: Seq<SignerView>) -> bool {
    forall|i: int| 0 <= i < keys.len() ==> mentions(s, (#[trigger] keys[i]).name)
}

/// The joined names of the keys name each of them.
proof fn joined_names(keys: Seq<SignerView>)
    ensures
        names_all(text::joined(keys.map_values(|k: SignerView| k.name), ", "@), keys),
{
    let names = keys.map_values(|k: SignerView| k.name);
    assert forall|i: int| 0 <= i < keys.len() implies mentions(
        text::joined(names, ", "@),
        (#[trigger] keys[i]).name,
    ) by {
        parts_are_mentioned(names, ", "@, i);
    }
}

/// The row of a requirement tells the role, its version and expiry, whether the threshold is reached
/// and by how many signatures, who has signed and who has not, and whether it is about the keys of the
/// root before.
pub open spec fn row_tells(t: Seq<char>, s: RoleStatusView, r: RequirementView) -> bool {
    let count = text::decimal(r.signed.len()) + " of "@ + text::decimal(r.threshold as nat);
    &&& mentions(t, s.role)
    &&& mentions(t, text::decimal(s.version as nat))
    &&& mentions(t, time::date_text(s.expires))
    &&& s.base matches Some((version, expires)) ==> version != s.version ==> mentions(
        t,
        text::decimal(version as nat) + " → "@ + text::decimal(s.version as nat),
    ) && mentions(t, time::date_text(expires) + " → "@ + time::date_text(s.expires))
    &&& r.signed.len() >= r.threshold ==> mentions(t, "✅"@ + (" "@ + count))
    &&& r.signed.len() < r.threshold ==> mentions(t, "⏳"@ + (" "@ + count))
    &&& r.previous_root ==> mentions(t, s.role + " (previous keys)"@)
    &&& names_all(t, r.signed)
    &&& names_all(t, r.unsigned)
}

/// Each row of the table tells what its requirement says.
pub proof fn rows_tell_their_requirements(s: RoleStatusView, r: RequirementView)
    ensures
        row_tells(ci::row(s, r), s, r),
{
    adding_keeps_what_is_there();
    let t = ci::row(s, r);
    let mark = if status::is_met(r) {
        "✅"@
    } else {
        "⏳"@
    };
    let previous = if r.previous_root {
        " (previous keys)"@
    } else {
        ""@
    };
    let n = text::decimal(r.signed.len());
    let m = text::decimal(r.threshold as nat);
    let count = n + " of "@ + m;
    let a1 = "| "@ + s.role;
    let a2 = a1 + previous;
    let a3 = a2 + " | "@ + ci::version_column(s) + " | "@;
    let a4 = a3 + ci::expiry_column(s) + " | "@;
    let a5 = a4 + mark + " "@ + n + " of "@ + m;
    let a6 = a5 + " | "@ + ci::names_column(r.signed);
    let a7 = a6 + " | "@ + ci::names_column(r.unsigned);
    assert(t == a7 + " |\n"@);
    assert(a5 =~= a4 + (mark + (" "@ + count)));
    assert(a2 =~= "| "@ + (s.role + previous));
    let marked = mark + (" "@ + count);
    assert(mentions(marked, marked));
    assert(mentions(a5, marked));
    assert(mentions(a6, marked));
    assert(mentions(a7, marked));
    let with = s.role + previous;
    assert(mentions(with, with));
    assert(mentions(with, s.role) && mentions(a2, with) && mentions(a2, s.role)) by {
        assert(mentions(s.role, s.role));
    }
    row_end(a2, a3, a4, a5, a6, a7, t, s, r);
    row_columns(s);
    let v = ci::version_column(s);
    let e = ci::expiry_column(s);
    assert(mentions(v, v) && mentions(e, e));
    assert(mentions(a3, v)) by {
        assert(mentions(a2 + " | "@ + v, v));
    }
    assert(mentions(a4, e)) by {
        assert(mentions(a3 + e, e));
    }
    assert(mentions(t, v)) by {
        assert(mentions(a3 + e, v));
        assert(mentions(a4, v));
        passed_on(a4, mark, n, m, v);
        assert(mentions(a6, v) && mentions(a7, v));
    }
    assert(mentions(t, e)) by {
        passed_on(a4, mark, n, m, e);
        assert(mentions(a6, e) && mentions(a7, e));
    }
    mentioned_through(t, v, text::decimal(s.version as nat));
    mentioned_through(t, e, time::date_text(s.expires));
    assert(names_all(t, r.signed)) by {
        assert forall|i: int| 0 <= i < r.signed.len() implies mentions(t, (#[trigger] r.signed[i]).name) by {
            joined_names(r.signed);
            assert(mentions(ci::names_column(r.signed), r.signed[i].name));
            assert(mentions(a6, r.signed[i].name));
            assert(mentions(a7, r.signed[i].name));
        }
    }
    assert(names_all(t, r.unsigned)) by {
        assert forall|i: int| 0 <= i < r.unsigned.len() implies mentions(
            t,
            (#[trigger] r.unsigned[i]).name,
        ) by {
            joined_names(r.unsigned);
            assert(mentions(ci::names_column(r.unsigned), r.unsigned[i].name));
            assert(mentions(a7, r.unsigned[i].name));
        }
    }
}

/// What is there before the count is there behind it.
proof fn passed_on(a4: Seq<char>, mark: Seq<char>, n: Seq<char>, m: Seq<char>, words: Seq<char>)
    requires
        mentions(a4, words),
    ensures
        mentions(a4 + mark + " "@ + n + " of "@ + m, words),
{
    adding_keeps_what_is_there();
    assert(mentions(a4 + mark, words));
    assert(mentions(a4 + mark + " "@, words));
    assert(mentions(a4 + mark + " "@ + n, words));
    assert(mentions(a4 + mark + " "@ + n + " of "@, words));
}

/// What the row starts with is in it.
proof fn row_end(
    a2: Seq<char>,
    a3: Seq<char>,
    a4: Seq<char>,
    a5: Seq<char>,
    a6: Seq<char>,
    a7: Seq<char>,
    t: Seq<char>,
    s: RoleStatusView,
    r: RequirementView,
)
    requires
        a3 == a2 + " | "@ + ci::version_column(s) + " | "@,
        a4 == a3 + ci::expiry_column(s) + " | "@,
        exists|x: Seq<char>| a5 == #[trigger] (a4 + x),
        a6 == a5 + " | "@ + ci::names_column(r.signed),
        a7 == a6 + " | "@ + ci::names_column(r.unsigned),
        t == a7 + " |\n"@,
    ensures
        forall|words: Seq<char>| mentions(a2, words) ==> #[trigger] mentions(t, words),
{
    assert forall|words: Seq<char>| mentions(a2, words) implies #[trigger] mentions(t, words) by {
        adding_keeps_what_is_there();
        assert(mentions(a2 + " | "@, words));
        assert(mentions(a2 + " | "@ + ci::version_column(s), words));
        assert(mentions(a3, words));
        assert(mentions(a3 + ci::expiry_column(s), words));
        assert(mentions(a4, words));
        let x = choose|x: Seq<char>| a5 == #[trigger] (a4 + x);
        assert(mentions(a4 + x, words));
        assert(mentions(a5 + " | "@, words));
        assert(mentions(a6, words));
        assert(mentions(a6 + " | "@, words));
        assert(mentions(a7, words));
    }
}

/// The columns tell version and expiry.
proof fn row_columns(s: RoleStatusView)
    ensures
        mentions(ci::version_column(s), text::decimal(s.version as nat)),
        mentions(ci::expiry_column(s), time::date_text(s.expires)),
        s.base matches Some((version, expires)) ==> version != s.version ==> ci::version_column(s)
            == text::decimal(version as nat) + " → "@ + text::decimal(s.version as nat)
            && ci::expiry_column(s) == time::date_text(expires) + " → "@ + time::date_text(s.expires),
{
    adding_keeps_what_is_there();
    let v = text::decimal(s.version as nat);
    let e = time::date_text(s.expires);
    assert(mentions(v, v) && mentions(e, e));
}

/// The rows of a role are in the table.
proof fn role_rows_are_there(s: RoleStatusView, requirements: Seq<RequirementView>, j: int)
    requires
        0 <= j < requirements.len(),
    ensures
        mentions(ci::role_rows(s, requirements), ci::row(s, requirements[j])),
    decreases requirements.len(),
{
    adding_keeps_what_is_there();
    let rest = requirements.drop_last();
    if j < rest.len() {
        role_rows_are_there(s, rest, j);
        assert(rest[j] == requirements[j]);
    } else {
        assert(requirements.last() == requirements[j]);
        let own = ci::row(s, requirements[j]);
        assert(mentions(own, own));
    }
}

/// The rows of all roles are in the table.
proof fn rows_are_there(roles: Seq<RoleStatusView>, i: int, j: int)
    requires
        0 <= i < roles.len(),
        0 <= j < roles[i].requirements.len(),
    ensures
        mentions(ci::rows(roles), ci::row(roles[i], roles[i].requirements[j])),
    decreases roles.len(),
{
    adding_keeps_what_is_there();
    let rest = roles.drop_last();
    if i < rest.len() {
        rows_are_there(rest, i, j);
        assert(rest[i] == roles[i]);
    } else {
        assert(roles.last() == roles[i]);
        role_rows_are_there(roles[i], roles[i].requirements, j);
    }
}

/// The lines of changes are all there.
proof fn change_lines_are_there(changes: Seq<ChangeView>, storage: Seq<char>, k: int)
    requires
        0 <= k < changes.len(),
        ci::change_lines(changes, storage) is Ok,
    ensures
        ci::change_line(changes[k], storage) matches Ok(line) && mentions(
            ci::change_lines(changes, storage)->Ok_0,
            line,
        ),
    decreases changes.len(),
{
    adding_keeps_what_is_there();
    let rest = changes.drop_last();
    if k < rest.len() {
        change_lines_are_there(rest, storage, k);
        assert(rest[k] == changes[k]);
    } else {
        assert(changes.last() == changes[k]);
        let line = ci::change_line(changes[k], storage)->Ok_0;
        assert(mentions(line, line));
    }
}

/// The changes of all roles are there.
proof fn sections_are_there(roles: Seq<RoleStatusView>, storage: Seq<char>, i: int, k: int)
    requires
        0 <= i < roles.len(),
        0 <= k < roles[i].changes.len(),
        ci::sections(roles, storage) is Ok,
    ensures
        ci::change_line(roles[i].changes[k], storage) matches Ok(line) && mentions(
            ci::sections(roles, storage)->Ok_0,
            line,
        ),
    decreases roles.len(),
{
    adding_keeps_what_is_there();
    let rest = roles.drop_last();
    if i < rest.len() {
        sections_are_there(rest, storage, i, k);
        assert(rest[i] == roles[i]);
    } else {
        assert(roles.last() == roles[i]);
        change_lines_are_there(roles[i].changes, storage, k);
        let line = ci::change_line(roles[i].changes[k], storage)->Ok_0;
        let lines = ci::change_lines(roles[i].changes, storage)->Ok_0;
        let start = "\n**Changes to "@ + roles[i].role + "**\n\n"@;
        assert(mentions(start + lines, line));
    }
}

/// The report on an event has a row for each requirement of each role, and a line for each change.
pub proof fn the_report_leaves_nothing_out(roles: Seq<RoleStatusView>, storage: Seq<char>)
    requires
        ci::markdown_of(roles, storage) is Ok,
    ensures
        ({
            let t = ci::markdown_of(roles, storage)->Ok_0;
            &&& forall|i: int, j: int|
                0 <= i < roles.len() && 0 <= j < roles[i].requirements.len() ==> mentions(
                    t,
                    ci::row(roles[i], #[trigger] roles[i].requirements[j]),
                )
            &&& forall|i: int, k: int|
                0 <= i < roles.len() && 0 <= k < roles[i].changes.len() ==> (ci::change_line(
                    #[trigger] roles[i].changes[k],
                    storage,
                ) matches Ok(line) && mentions(t, line))
        }),
{
    let t = ci::markdown_of(roles, storage)->Ok_0;
    let table = ci::table_heading() + ci::rows(roles);
    assert forall|i: int, j: int| 0 <= i < roles.len() && 0 <= j < roles[i].requirements.len() implies
        mentions(t, ci::row(roles[i], #[trigger] roles[i].requirements[j])) by {
        adding_keeps_what_is_there();
        rows_are_there(roles, i, j);
        assert(mentions(table, ci::row(roles[i], roles[i].requirements[j])));
    }
    assert forall|i: int, k: int| 0 <= i < roles.len() && 0 <= k < roles[i].changes.len() implies (
    ci::change_line(#[trigger] roles[i].changes[k], storage) matches Ok(line) && mentions(t, line)) by {
        adding_keeps_what_is_there();
        sections_are_there(roles, storage, i, k);
    }
}

/// The line of a change tells it: a target by its path, what becomes of it, and where its file can be
/// downloaded, with length and digest; any other change in its words.
pub proof fn lines_tell_their_changes(ch: ChangeView, storage: Seq<char>)
    requires
        ci::change_line(ch, storage) is Ok,
    ensures
        ({
            let t = ci::change_line(ch, storage)->Ok_0;
            match ch {
                ChangeView::Target { path, kind, file } => mentions(t, path) && mentions(t, kind) && (
                file matches Some(f) ==> mentions(t, text::decimal(f.length as nat) + " bytes"@)
                    && mentions(t, f.sha256) && (cloud::public_url_of(storage, f.object) matches Ok(
                    url,
                ) && mentions(t, url))),
                ChangeView::Other(words) => mentions(t, words),
            }
        }),
{
    match ch {
        ChangeView::Target { path, kind, file: Some(f) } => {
            let url = cloud::public_url_of(storage, f.object)->Ok_0;
            let n = text::decimal(f.length as nat);
            let a = "- target [`"@ + path;
            let b = a + "`](<"@ + url;
            let c = b + ">) "@ + kind;
            let d = c + " ("@ + n + " bytes, sha256 `"@;
            let e = d + f.sha256;
            let t = e + "`)\n"@;
            assert(ci::change_line(ch, storage)->Ok_0 == t);
            reveal_strlit(" bytes, sha256 `");
            reveal_strlit(" bytes");
            reveal_strlit(", sha256 `");
            assert(" bytes, sha256 `"@ =~= " bytes"@ + ", sha256 `"@);
            assert(d =~= (c + " ("@) + (n + " bytes"@) + ", sha256 `"@);
            let size = n + " bytes"@;
            through(b, ">) "@, kind, c);
            through(a, "`](<"@, url, b);
            assert forall|w: Seq<char>| mentions(c, w) || mentions(d, w) || mentions(e, w) implies
                #[trigger] mentions(t, w) by {
                adding_keeps_what_is_there();
                if mentions(c, w) {
                    assert(mentions(c + " ("@, w));
                    assert(mentions(c + " ("@ + n, w));
                    assert(mentions(d, w));
                }
                if mentions(d, w) {
                    assert(mentions(e, w));
                }
            }
            assert(mentions(t, path) && mentions(t, url) && mentions(t, kind) && mentions(t, size)
                && mentions(t, f.sha256)) by {
                adding_keeps_what_is_there();
                assert(mentions(path, path) && mentions(a, path));
                assert(mentions(b, path) && mentions(c, path) && mentions(c, url));
                assert(mentions(size, size));
                assert(mentions((c + " ("@) + size, size));
                assert(mentions(d, size));
                assert(mentions(f.sha256, f.sha256));
                assert(mentions(e, f.sha256));
            }
        },
        ChangeView::Target { path, kind, file: None } => {
            adding_keeps_what_is_there();
            let a = "- target `"@ + path;
            let b = a + "` "@ + kind;
            assert(mentions(path, path) && mentions(kind, kind));
            assert(mentions(a, path));
            assert(mentions(a + "` "@, path));
            assert(mentions(b, path) && mentions(b, kind));
        },
        ChangeView::Other(words) => {
            adding_keeps_what_is_there();
            assert(mentions(words, words));
            assert(mentions("- "@ + words, words));
        },
    }
}

/// What is in the parts is in the whole.
proof fn through(a: Seq<char>, sep: Seq<char>, b: Seq<char>, whole: Seq<char>)
    requires
        whole == a + sep + b,
    ensures
        mentions(whole, b),
        forall|w: Seq<char>| mentions(a, w) ==> #[trigger] mentions(whole, w),
{
    adding_keeps_what_is_there();
    assert(mentions(b, b));
    assert forall|w: Seq<char>| mentions(a, w) implies #[trigger] mentions(whole, w) by {
        assert(mentions(a + sep, w));
    }
}

/// An event waits for finitely many.
proof fn waits_finite(s: Seq<RoleStatusView>)
    ensures
        status::event_waits(s).finite(),
    decreases s.len(),
{
    if s.len() > 0 {
        waits_finite(s.drop_last());
        role_waits_finite(s.last().requirements);
    }
}

/// A role waits for finitely many.
proof fn role_waits_finite(r: Seq<RequirementView>)
    ensures
        status::role_waits(r).finite(),
    decreases r.len(),
{
    if r.len() > 0 {
        role_waits_finite(r.drop_last());
        vstd::seq_lib::seq_to_set_is_finite(r.last().unsigned.map_values(|k: SignerView| k.name));
    }
}

/// Everybody whom an event waits for is named.
pub proof fn all_awaited_are_named(s: Seq<RoleStatusView>, name: Seq<char>)
    requires
        status::event_waits(s).contains(name),
    ensures
        mentions(ci::waiting_text(s), name),
        mentions(ci::closing_of(s, false), name) || status::event_complete(s),
{
    let names = strmap::listing(status::event_waits(s));
    waits_finite(s);
    strmap::listing_exists(status::event_waits(s));
    assert(names.to_set().contains(name));
    let i = choose|i: int| 0 <= i < names.len() && names[i] == name;
    parts_are_mentioned(names, ", "@, i);
    adding_keeps_what_is_there();
    assert(mentions("Waiting for signatures from "@ + ci::waiting_text(s), name));
}

/// The description of the commit status says that the signatures are in exactly where they are, and
/// otherwise begins to name those whom the event waits for.
pub proof fn descriptions_are_true(s: Seq<RoleStatusView>)
    ensures
        status::event_complete(s) ==> ci::description_of(s) == "All signatures are in"@,
        !status::event_complete(s) ==> ci::description_of(s).is_prefix_of(
            "Waiting for "@ + ci::waiting_text(s),
        ) && (ci::description_of(s).len() == 140 || ci::description_of(s) == "Waiting for "@
            + ci::waiting_text(s)),
{
    reveal_strlit("All signatures are in");
    let t = "Waiting for "@ + ci::waiting_text(s);
    if t.len() > 140 {
        assert(t.take(140) =~= t.subrange(0, 140));
    } else {
        assert(t =~= t.subrange(0, t.len() as int));
    }
}

/// The report on an event names its branch and holds the table of its requirements and changes.
pub proof fn the_plan_reports_the_status(
    c: ConfigView,
    base: Files,
    head: Files,
    branch: Seq<char>,
    changed_files: Seq<Seq<char>>,
)
    requires
        ci::plan_of(c, base, head, branch, changed_files) is Ok,
    ensures
        ci::plan_of(c, base, head, branch, changed_files)->Ok_0 matches PlanView::Report {
            body,
            description,
            merge,
            ..
        } ==> {
            let s = status::status_of(c, base, head)->Ok_0;
            &&& mentions(body, branch)
            &&& mentions(body, ci::markdown_of(s, c.storage)->Ok_0)
            &&& mentions(body, ci::closing_of(s, merge))
            &&& description == ci::description_of(s)
        },
{
    if changed_files.len() > 0 {
        let s = status::status_of(c, base, head)->Ok_0;
        let table = ci::markdown_of(s, c.storage)->Ok_0;
        let merge = status::automatic(s, changed_files);
        let end = ci::closing_of(s, merge);
        let a = "## Signing event `"@ + branch;
        let b = a + "`\n\n"@ + table;
        let t = b + "\n"@ + end;
        adding_keeps_what_is_there();
        assert(mentions(branch, branch));
        assert(mentions(a, branch));
        through(a, "`\n\n"@, table, b);
        through(b, "\n"@, end, t);
        assert(mentions(b, branch) && mentions(b, table));
        assert(mentions(t, branch) && mentions(t, table) && mentions(t, end));
    }
}

/// The end of the report asks for the signatures that are missing, and leaves the merging to a
/// maintainer where it is not done by itself.
pub proof fn the_closing_is_true(s: Seq<RoleStatusView>, merge: bool)
    ensures
        status::event_complete(s) ==> ci::closing_of(s, merge) == if merge {
            "All signatures are in: merging."@
        } else {
            "All signatures are in: a maintainer can now review and merge this pull request."@
        },
        !status::event_complete(s) ==> ("Waiting for signatures from "@
            + ci::waiting_text(s)).is_prefix_of(ci::closing_of(s, merge)),
{
    let a = "Waiting for signatures from "@ + ci::waiting_text(s);
    let b = ". Signers: check out the repository and run `tufops sign`."@;
    assert((a + b).subrange(0, a.len() as int) =~= a);
}

/// What is said of a requirement tells how many have signed of how many it takes, names those who have,
/// and, where they are not enough, those who have not.
pub proof fn requirements_are_told(r: RequirementView)
    ensures
        ({
            let t = cli::requirement_text(r);
            &&& mentions(
                t,
                text::decimal(r.signed.len()) + " of "@ + text::decimal(r.threshold as nat),
            )
            &&& names_all(t, r.signed)
            &&& r.signed.len() < r.threshold ==> names_all(t, r.unsigned)
            &&& r.previous_root ==> mentions(t, "previous root keys"@)
        }),
{
    let start = if r.previous_root {
        "signatures from the previous root keys"@
    } else {
        "signatures"@
    };
    let n = text::decimal(r.signed.len());
    let m = text::decimal(r.threshold as nat);
    let count = n + " of "@ + m;
    let signed = if r.signed.len() == 0 {
        ""@
    } else {
        ", signed by "@ + cli::names_text(r.signed)
    };
    let unsigned = if status::is_met(r) {
        ""@
    } else {
        ", waiting for "@ + cli::names_text(r.unsigned)
    };
    let a = start + ": "@ + n + " of "@ + m;
    let t = a + signed + unsigned;
    assert(cli::requirement_text(r) == t);
    adding_keeps_what_is_there();
    assert(a =~= start + ": "@ + count);
    through(start, ": "@, count, a);
    assert(mentions(a + signed, count));
    joined_names(r.signed);
    joined_names(r.unsigned);
    assert forall|i: int| 0 <= i < r.signed.len() implies mentions(t, (#[trigger] r.signed[i]).name) by {
        assert(mentions(cli::names_text(r.signed), r.signed[i].name));
        assert(mentions(signed, r.signed[i].name));
        assert(mentions(a + signed, r.signed[i].name));
    }
    if r.signed.len() < r.threshold {
        assert forall|i: int| 0 <= i < r.unsigned.len() implies mentions(
            t,
            (#[trigger] r.unsigned[i]).name,
        ) by {
            assert(mentions(cli::names_text(r.unsigned), r.unsigned[i].name));
            assert(mentions(unsigned, r.unsigned[i].name));
        }
    }
    if r.previous_root {
        reveal_strlit("signatures from the previous root keys");
        reveal_strlit("signatures from the ");
        reveal_strlit("previous root keys");
        assert(start =~= "signatures from the "@ + "previous root keys"@);
        let words = "previous root keys"@;
        assert(mentions(words, words));
        assert(mentions("signatures from the "@ + words, words));
        assert(mentions(start, words));
        assert(mentions(a, words));
        assert(mentions(a + signed, words));
    }
}

/// Before they sign, people see every change of a role in words.
pub proof fn details_tell_every_change(s: RoleStatusView, ch: ChangeView)
    requires
        s.changes.contains(ch),
    ensures
        cli::detail_of(s).contains(status::change_text(ch)),
        match ch {
            ChangeView::Target { path, kind, file } => mentions(status::change_text(ch), path)
                && mentions(status::change_text(ch), kind) && (file matches Some(f) ==> mentions(
                status::change_text(ch),
                text::decimal(f.length as nat),
            ) && mentions(status::change_text(ch), f.sha256)),
            ChangeView::Other(words) => status::change_text(ch) == words,
        },
{
    let i = choose|i: int| 0 <= i < s.changes.len() && s.changes[i] == ch;
    assert(cli::detail_of(s)[i] == status::change_text(ch));
    adding_keeps_what_is_there();
    match ch {
        ChangeView::Target { path, kind, file } => {
            let a = "target "@ + path;
            let b = a + " "@ + kind;
            assert(mentions(path, path));
            assert(mentions(a, path));
            through(a, " "@, kind, b);
            assert(mentions(b, path));
            if file is Some {
                let f = file->0;
                let n = text::decimal(f.length as nat);
                let d = b + " ("@ + n;
                let e = d + " bytes, sha256 "@ + f.sha256;
                through(b, " ("@, n, d);
                through(d, " bytes, sha256 "@, f.sha256, e);
                assert(mentions(d, path) && mentions(d, kind));
                assert(mentions(e, path) && mentions(e, kind) && mentions(e, n) && mentions(
                    e,
                    f.sha256,
                ));
                assert(status::change_text(ch) == e + ")"@);
            }
        },
        ChangeView::Other(_) => {},
    }
}

/// What is said of a role tells its version, and that of main where it is another one, or that it is
/// new, and when it expires.
pub proof fn headings_tell_the_version(s: RoleStatusView)
    ensures
        ({
            let t = cli::heading_of(s);
            &&& mentions(t, "version "@)
            &&& mentions(
                t,
                text::decimal(s.version as nat) + (", expires "@ + time::minute_text(s.expires)),
            )
            &&& s.base is None ==> mentions(t, "new"@)
            &&& s.base matches Some((version, _)) ==> version != s.version ==> mentions(
                t,
                text::decimal(version as nat) + " → "@,
            )
        }),
{
    adding_keeps_what_is_there();
    let t = cli::heading_of(s);
    let e = ", expires "@ + time::minute_text(s.expires);
    let n = text::decimal(s.version as nat);
    let words = "version "@;
    assert(mentions(words, words));
    assert(mentions(n + e, n + e));
    match s.base {
        None => {
            reveal_strlit("new, version ");
            reveal_strlit("new, ");
            reveal_strlit("new");
            reveal_strlit(", version ");
            reveal_strlit("version ");
            assert("new, version "@ =~= "new, "@ + words);
            assert("new, version "@ =~= "new"@ + ", version "@);
            assert(mentions("new"@, "new"@));
            assert(mentions("new"@ + ", version "@, "new"@));
            assert(mentions("new, "@ + words, words));
            assert(t =~= "new, version "@ + (n + e));
            assert(mentions("new, version "@ + (n + e), n + e));
        },
        Some((version, _)) => {
            if version != s.version {
                let from = text::decimal(version as nat) + " → "@;
                assert(t =~= words + from + (n + e));
                assert(mentions(from, from));
                assert(mentions(words + from, from));
                assert(mentions(words + from, words));
                assert(mentions(words + from + (n + e), n + e));
            } else {
                assert(t =~= words + (n + e));
                assert(mentions(words + (n + e), n + e));
            }
        },
    }
}

/// The address of a run names the server, the repository and the run.
pub proof fn addresses_name_their_run(server: Seq<char>, repository: Seq<char>, run: Seq<char>)
    ensures
        server.is_prefix_of(ci::run_address(server, repository, run)),
        mentions(ci::run_address(server, repository, run), "/"@ + repository + "/"@),
        run.is_suffix_of(ci::run_address(server, repository, run)),
{
    let t = ci::run_address(server, repository, run);
    let middle = "/"@ + repository + "/"@;
    reveal_strlit("/");
    reveal_strlit("/actions/runs/");
    reveal_strlit("actions/runs/");
    assert("/actions/runs/"@ =~= "/"@ + "actions/runs/"@);
    assert(t =~= server + middle + ("actions/runs/"@ + run));
    assert(t.subrange(0, server.len() as int) =~= server);
    assert(t.subrange(t.len() - run.len(), t.len() as int) =~= run);
    adding_keeps_what_is_there();
    assert(mentions(middle, middle));
    assert(mentions(server + middle, middle));
}

/// Before they sign, people are told whose key is needed, and for how many roles.
pub proof fn prompts_name_the_holder(c: ConfigView, id: Seq<char>, roles: int)
    ensures
        mentions(cli::prompt_of(c, id, roles), config::key_label(c, id)),
        roles == 1 ==> mentions(cli::prompt_of(c, id, roles), "this role"@),
        roles != 1 ==> mentions(cli::prompt_of(c, id, roles), "these roles"@),
{
    adding_keeps_what_is_there();
    let label = config::key_label(c, id);
    let start = match status::head_of(id, 8) {
        Some(t) => t,
        None => ""@,
    };
    let words = if roles == 1 {
        "this role"@
    } else {
        "these roles"@
    };
    let a = "Your YubiKey ("@ + label;
    let b = a + ", key "@ + start;
    let d = b + ") is needed to sign "@ + words;
    assert(cli::prompt_of(c, id, roles) == d + " in "@);
    assert(mentions(label, label));
    assert(mentions(a, label));
    through(a, ", key "@, start, b);
    through(b, ") is needed to sign "@, words, d);
    assert(mentions(b, label));
    assert(mentions(d, label) && mentions(d, words));
}

} // verus!
