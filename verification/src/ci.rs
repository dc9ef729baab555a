//! The decisions of the automation that runs on a checkout of the repository, and the words it puts
//! on pull requests, commit statuses and issues.

use vstd::prelude::*;

use crate::cloud;
use crate::config::{Config, ConfigView};
use crate::error;
use crate::error::{Error, Fault, Problem};
use crate::git;
use crate::git::{Next, NextView, Reply, ReplyView};
use crate::repo::{Files, Repo};
use crate::status;
use crate::status::{
    Change, ChangeView, EventStatus, Key, Requirement, RequirementView, RoleStatus, RoleStatusView,
    SignerView,
};
use crate::strmap;
use crate::text;
use crate::time;

verus! {

broadcast use crate::text::views_push;

/// Signing event CI starts when offline roles are about to expire.
pub const REFRESH_EVENT: &'static str = "refresh";

/// The title of the issue about failed runs.
pub const FAILURE_TITLE: &'static str = "tufops automation failed";

/// Commit status on signing events: make it a required check so pull requests missing signatures
/// can't be merged.
pub const STATUS_CONTEXT: &'static str = "tufops/signatures";

/// What there is to do on a branch.
#[derive(Debug)]
pub enum Job {
    /// Keep a signing event's pull request and status up to date.
    SigningEvent(String),
    /// Sign, publish, and start signing events for what is about to expire.
    Main,
}

/// What there is to do on a branch, as contracts speak of it.
pub enum JobView {
    SigningEvent(Seq<char>),
    Main,
}

impl View for Job {
    type V = JobView;

    open spec fn view(&self) -> JobView {
        match self {
            Job::SigningEvent(event) => JobView::SigningEvent(event@),
            Job::Main => JobView::Main,
        }
    }
}

/// What there is to do on `branch`.
pub open spec fn job_on(branch: Seq<char>) -> Result<JobView, Fault> {
    if "sign/"@.is_prefix_of(branch) {
        Ok(JobView::SigningEvent(branch.skip(5)))
    } else if branch == "main"@ {
        Ok(JobView::Main)
    } else {
        Err(Problem::Branch { branch })
    }
}

/// What there is to do on `branch`.
pub fn job(branch: &str) -> (r: Result<Job, Error>)
    ensures
        error::outcome(r) == job_on(branch@),
{
    match text::strip_prefix(branch, "sign/") {
        Some(event) => {
            proof {
                reveal_strlit("sign/");
                assert(branch@.skip(5) =~= event@);
            }
            Ok(Job::SigningEvent(event))
        },
        None => if text::same(branch, "main") {
            Ok(Job::Main)
        } else {
            Err(Problem::Branch { branch: branch.to_owned() })
        },
    }
}

/// The names of those whose signatures are still needed.
pub open spec fn waiting_text(s: Seq<RoleStatusView>) -> Seq<char> {
    text::joined(strmap::listing(status::event_waits(s)), ", "@)
}

/// The names of those whose signatures are still needed.
pub fn waiting_names(s: &EventStatus) -> (r: String)
    ensures
        r@ == waiting_text(s@),
{
    text::join(&s.waiting_for().to_vec(), ", ")
}

/// The first `n` characters of `s`.
pub open spec fn beginning(s: Seq<char>, n: int) -> Seq<char> {
    if s.len() <= n {
        s
    } else {
        s.take(n)
    }
}

/// The description of the commit status: GitHub limits it to 140 characters.
pub open spec fn description_of(s: Seq<RoleStatusView>) -> Seq<char> {
    beginning(
        if status::event_complete(s) {
            "All signatures are in"@
        } else {
            "Waiting for "@ + waiting_text(s)
        },
        140,
    )
}

/// The description of the commit status of a signing event, of at most 140 characters.
pub fn status_description(s: &EventStatus) -> (r: String)
    ensures
        r@ == description_of(s@),
        r@.len() <= 140,
{
    let whole = if s.complete() {
        "All signatures are in".to_owned()
    } else {
        text::cat("Waiting for ", waiting_names(s).as_str())
    };
    let chars = text::characters(whole.as_str());
    if chars.len() <= 140 {
        whole
    } else {
        let r = text::text_of(&chars, 0, 140);
        assert(r@ =~= whole@.take(140));
        r
    }
}

/// The address of a workflow run.
pub open spec fn run_address(server: Seq<char>, repository: Seq<char>, run: Seq<char>) -> Seq<char> {
    server + "/"@ + repository + "/actions/runs/"@ + run
}

/// The address of a workflow run.
pub fn run_url(server: &str, repository: &str, run: &str) -> (r: String)
    ensures
        r@ == run_address(server@, repository@, run@),
{
    let mut out = server.to_owned();
    text::extend(&mut out, "/");
    text::extend(&mut out, repository);
    text::extend(&mut out, "/actions/runs/");
    text::extend(&mut out, run);
    out
}

/// The version column: what main has, and what the event changes it to.
pub open spec fn version_column(s: RoleStatusView) -> Seq<char> {
    match s.base {
        Some((version, _)) => if version != s.version {
            text::decimal(version as nat) + " → "@ + text::decimal(s.version as nat)
        } else {
            text::decimal(s.version as nat)
        },
        None => text::decimal(s.version as nat),
    }
}

/// The expiry column: what main has, and what the event changes it to.
pub open spec fn expiry_column(s: RoleStatusView) -> Seq<char> {
    match s.base {
        Some((version, expires)) => if version != s.version {
            time::date_text(expires) + " → "@ + time::date_text(s.expires)
        } else {
            time::date_text(s.expires)
        },
        None => time::date_text(s.expires),
    }
}

/// The version and expiry columns: what main has, and what the event changes them to.
fn version(role: &RoleStatus) -> (r: (String, String))
    ensures
        r.0@ == version_column(role@),
        r.1@ == expiry_column(role@),
{
    let new_version = text::to_decimal(role.version as u64);
    let new_date = role.expires.date();
    match &role.base {
        Some((v, t)) => {
            if *v != role.version {
                let mut a = text::to_decimal(*v as u64);
                text::extend(&mut a, " → ");
                text::extend(&mut a, new_version.as_str());
                let mut b = t.date();
                text::extend(&mut b, " → ");
                text::extend(&mut b, new_date.as_str());
                return (a, b);
            }
        },
        None => {},
    }
    (new_version, new_date)
}

/// The names of the keys, or a dash.
pub open spec fn names_column(keys: Seq<SignerView>) -> Seq<char> {
    if keys.len() == 0 {
        "-"@
    } else {
        text::joined(keys.map_values(|k: SignerView| k.name), ", "@)
    }
}

/// The names of the keys.
pub(crate) fn key_names(keys: &Vec<Key>) -> (r: Vec<String>)
    ensures
        text::views(r@) == text::views(keys@).map_values(|k: SignerView| k.name),
{
    let ghost names = text::views(keys@).map_values(|k: SignerView| k.name);
    let mut out: Vec<String> = Vec::new();
    let mut i: usize = 0;
    while i < keys.len()
        invariant
            i <= keys.len(),
            names == text::views(keys@).map_values(|k: SignerView| k.name),
            text::views(out@) =~= names.take(i as int),
        decreases keys.len() - i,
    {
        out.push(keys[i].name.clone());
        assert(names.take(i + 1) =~= names.take(i as int).push(names[i as int]));
        i = i + 1;
    }
    assert(names.take(i as int) =~= names);
    out
}

fn names(keys: &Vec<Key>) -> (r: String)
    ensures
        r@ == names_column(text::views(keys@)),
{
    if keys.len() == 0 {
        "-".to_owned()
    } else {
        text::join(&key_names(keys), ", ")
    }
}

/// The row of the table for a requirement of a role.
pub open spec fn row(s: RoleStatusView, r: RequirementView) -> Seq<char> {
    "| "@ + s.role + (if r.previous_root {
        " (previous keys)"@
    } else {
        ""@
    }) + " | "@ + version_column(s) + " | "@ + expiry_column(s) + " | "@ + (if status::is_met(r) {
        "✅"@
    } else {
        "⏳"@
    }) + " "@ + text::decimal(r.signed.len()) + " of "@ + text::decimal(r.threshold as nat)
        + " | "@ + names_column(r.signed) + " | "@ + names_column(r.unsigned) + " |\n"@
}

/// The rows of the table for requirements of a role.
pub open spec fn role_rows(s: RoleStatusView, requirements: Seq<RequirementView>) -> Seq<char>
    decreases requirements.len(),
{
    if requirements.len() == 0 {
        Seq::empty()
    } else {
        role_rows(s, requirements.drop_last()) + row(s, requirements.last())
    }
}

/// The rows of the table.
pub open spec fn rows(roles: Seq<RoleStatusView>) -> Seq<char>
    decreases roles.len(),
{
    if roles.len() == 0 {
        Seq::empty()
    } else {
        rows(roles.drop_last()) + role_rows(roles.last(), roles.last().requirements)
    }
}

/// The line for a change, linking target files to their uploads.
pub open spec fn change_line(c: ChangeView, storage: Seq<char>) -> Result<Seq<char>, Fault> {
    match c {
        ChangeView::Target { path, kind, file: Some(file) } => match cloud::public_url_of(
            storage,
            file.object,
        ) {
            Err(e) => Err(e),
            Ok(url) => Ok(
                "- target [`"@ + path + "`](<"@ + url + ">) "@ + kind + " ("@ + text::decimal(
                    file.length as nat,
                ) + " bytes, sha256 `"@ + file.sha256 + "`)\n"@,
            ),
        },
        ChangeView::Target { path, kind, file: None } => Ok(
            "- target `"@ + path + "` "@ + kind + "\n"@,
        ),
        ChangeView::Other(t) => Ok("- "@ + t + "\n"@),
    }
}

/// The lines for changes.
pub open spec fn change_lines(changes: Seq<ChangeView>, storage: Seq<char>) -> Result<
    Seq<char>,
    Fault,
>
    decreases changes.len(),
{
    if changes.len() == 0 {
        Ok(Seq::empty())
    } else {
        match change_lines(changes.drop_last(), storage) {
            Err(e) => Err(e),
            Ok(earlier) => match change_line(changes.last(), storage) {
                Err(e) => Err(e),
                Ok(line) => Ok(earlier + line),
            },
        }
    }
}

/// The sections with the changes of each role that has any.
pub open spec fn sections(roles: Seq<RoleStatusView>, storage: Seq<char>) -> Result<Seq<char>, Fault>
    decreases roles.len(),
{
    if roles.len() == 0 {
        Ok(Seq::empty())
    } else {
        let role = roles.last();
        match sections(roles.drop_last(), storage) {
            Err(e) => Err(e),
            Ok(earlier) => if role.changes.len() == 0 {
                Ok(earlier)
            } else {
                match change_lines(role.changes, storage) {
                    Err(e) => Err(e),
                    Ok(lines) => Ok(
                        earlier + ("\n**Changes to "@ + role.role + "**\n\n"@ + lines),
                    ),
                }
            },
        }
    }
}

/// The heading of the table.
pub open spec fn table_heading() -> Seq<char> {
    "| Role | Version | Expires | Signatures | Signed by | Waiting for |\n|---|---|---|---|---|---|\n"@
}

/// The signing status as markdown for the pull request.
pub open spec fn markdown_of(roles: Seq<RoleStatusView>, storage: Seq<char>) -> Result<
    Seq<char>,
    Fault,
> {
    match sections(roles, storage) {
        Err(e) => Err(e),
        Ok(changes) => Ok(table_heading() + rows(roles) + changes),
    }
}

proof fn change_lines_fail(changes: Seq<ChangeView>, storage: Seq<char>, i: int)
    requires
        0 <= i <= changes.len(),
        change_lines(changes.take(i), storage) is Err,
    ensures
        change_lines(changes, storage) == change_lines(changes.take(i), storage),
    decreases changes.len(),
{
    if i < changes.len() {
        assert(changes.drop_last().take(i) =~= changes.take(i));
        change_lines_fail(changes.drop_last(), storage, i);
    } else {
        assert(changes.take(i) =~= changes);
    }
}

proof fn sections_fail(roles: Seq<RoleStatusView>, storage: Seq<char>, i: int)
    requires
        0 <= i <= roles.len(),
        sections(roles.take(i), storage) is Err,
    ensures
        sections(roles, storage) == sections(roles.take(i), storage),
    decreases roles.len(),
{
    if i < roles.len() {
        assert(roles.drop_last().take(i) =~= roles.take(i));
        sections_fail(roles.drop_last(), storage, i);
    } else {
        assert(roles.take(i) =~= roles);
    }
}

fn requirement_row(role: &RoleStatus, req: &Requirement) -> (r: String)
    ensures
        r@ == row(role@, req@),
{
    let (version, expires) = version(role);
    let mut out = "| ".to_owned();
    text::extend(&mut out, role.role.as_str());
    text::extend(
        &mut out,
        if req.previous_root {
            " (previous keys)"
        } else {
            ""
        },
    );
    text::extend(&mut out, " | ");
    text::extend(&mut out, version.as_str());
    text::extend(&mut out, " | ");
    text::extend(&mut out, expires.as_str());
    text::extend(&mut out, " | ");
    text::extend(
        &mut out,
        if req.met() {
            "✅"
        } else {
            "⏳"
        },
    );
    text::extend(&mut out, " ");
    assert(req@.signed.len() == req.signed@.len());
    text::extend(&mut out, text::to_decimal(req.signed.len() as u64).as_str());
    text::extend(&mut out, " of ");
    text::extend(&mut out, text::to_decimal(req.threshold as u64).as_str());
    text::extend(&mut out, " | ");
    text::extend(&mut out, names(&req.signed).as_str());
    text::extend(&mut out, " | ");
    text::extend(&mut out, names(&req.unsigned).as_str());
    text::extend(&mut out, " |\n");
    out
}

fn requirement_rows(role: &RoleStatus) -> (r: String)
    ensures
        r@ == role_rows(role@, role@.requirements),
{
    let ghost all = role@.requirements;
    let mut out = String::new();
    let mut i: usize = 0;
    assert(out@ =~= Seq::<char>::empty());
    while i < role.requirements.len()
        invariant
            i <= role.requirements.len(),
            all == role@.requirements,
            all == text::views(role.requirements@),
            out@ == role_rows(role@, all.take(i as int)),
        decreases role.requirements.len() - i,
    {
        assert(all.take(i + 1).drop_last() =~= all.take(i as int));
        assert(all.take(i + 1).last() == role.requirements@[i as int]@);
        text::extend(&mut out, requirement_row(role, &role.requirements[i]).as_str());
        i = i + 1;
    }
    assert(all.take(i as int) =~= all);
    out
}

fn line_for(change: &Change, storage: &str) -> (r: Result<String, Error>)
    ensures
        error::outcome(r) == change_line(change@, storage@),
{
    match change {
        Change::Target { path, kind, file } => match file {
            Some(file) => {
                let url = match cloud::public_url(storage, file.object.as_str()) {
                    Ok(u) => u,
                    Err(e) => {
                        return Err(e);
                    },
                };
                let mut out = "- target [`".to_owned();
                text::extend(&mut out, path.as_str());
                text::extend(&mut out, "`](<");
                text::extend(&mut out, url.as_str());
                text::extend(&mut out, ">) ");
                text::extend(&mut out, kind);
                text::extend(&mut out, " (");
                text::extend(&mut out, text::to_decimal(file.length).as_str());
                text::extend(&mut out, " bytes, sha256 `");
                text::extend(&mut out, file.sha256.as_str());
                text::extend(&mut out, "`)\n");
                Ok(out)
            },
            None => {
                let mut out = "- target `".to_owned();
                text::extend(&mut out, path.as_str());
                text::extend(&mut out, "` ");
                text::extend(&mut out, kind);
                text::extend(&mut out, "\n");
                Ok(out)
            },
        },
        Change::Other(t) => {
            let mut out = "- ".to_owned();
            text::extend(&mut out, t.as_str());
            text::extend(&mut out, "\n");
            Ok(out)
        },
    }
}

fn lines_for(changes: &Vec<Change>, storage: &str) -> (r: Result<String, Error>)
    ensures
        error::outcome(r) == change_lines(text::views(changes@), storage@),
{
    let ghost all = text::views(changes@);
    let mut out = String::new();
    let mut i: usize = 0;
    assert(out@ =~= Seq::<char>::empty());
    while i < changes.len()
        invariant
            i <= changes.len(),
            all == text::views(changes@),
            change_lines(all.take(i as int), storage@) == Ok::<Seq<char>, Fault>(out@),
        decreases changes.len() - i,
    {
        assert(all.take(i + 1).drop_last() =~= all.take(i as int));
        assert(all.take(i + 1).last() == changes@[i as int]@);
        match line_for(&changes[i], storage) {
            Ok(line) => {
                text::extend(&mut out, line.as_str());
            },
            Err(e) => {
                proof {
                    change_lines_fail(all, storage@, i + 1);
                }
                return Err(e);
            },
        }
        i = i + 1;
    }
    assert(all.take(i as int) =~= all);
    Ok(out)
}

fn section_texts(roles: &Vec<RoleStatus>, storage: &str) -> (r: Result<String, Error>)
    ensures
        error::outcome(r) == sections(text::views(roles@), storage@),
{
    let ghost all = text::views(roles@);
    let mut out = String::new();
    let mut i: usize = 0;
    assert(out@ =~= Seq::<char>::empty());
    while i < roles.len()
        invariant
            i <= roles.len(),
            all == text::views(roles@),
            sections(all.take(i as int), storage@) == Ok::<Seq<char>, Fault>(out@),
        decreases roles.len() - i,
    {
        let role = &roles[i];
        assert(all.take(i + 1).drop_last() =~= all.take(i as int));
        assert(all.take(i + 1).last() == role@);
        assert(role@.changes.len() == role.changes@.len());
        if role.changes.len() > 0 {
            match lines_for(&role.changes, storage) {
                Ok(lines) => {
                    let mut section = "\n**Changes to ".to_owned();
                    text::extend(&mut section, role.role.as_str());
                    text::extend(&mut section, "**\n\n");
                    text::extend(&mut section, lines.as_str());
                    text::extend(&mut out, section.as_str());
                },
                Err(e) => {
                    proof {
                        sections_fail(all, storage@, i + 1);
                    }
                    return Err(e);
                },
            }
        }
        i = i + 1;
    }
    assert(all.take(i as int) =~= all);
    Ok(out)
}

/// The signing status as markdown for the pull request, linking target files to their uploads in
/// `storage`.
pub fn markdown(s: &EventStatus, storage: &str) -> (r: Result<String, Error>)
    ensures
        error::outcome(r) == markdown_of(s@, storage@),
{
    let ghost all = s@;
    let mut out =
        "| Role | Version | Expires | Signatures | Signed by | Waiting for |\n|---|---|---|---|---|---|\n".to_owned();
    let ghost heading = out@;
    let mut i: usize = 0;
    assert(heading + Seq::<char>::empty() =~= heading);
    while i < s.roles.len()
        invariant
            i <= s.roles.len(),
            all == text::views(s.roles@),
            out@ == heading + rows(all.take(i as int)),
        decreases s.roles.len() - i,
    {
        let role = &s.roles[i];
        let more = requirement_rows(role);
        proof {
            assert(all.take(i + 1).drop_last() =~= all.take(i as int));
            assert(all.take(i + 1).last() == role@);
            let a = rows(all.take(i as int));
            assert(heading + a + more@ =~= heading + (a + more@));
        }
        text::extend(&mut out, more.as_str());
        i = i + 1;
    }
    assert(all.take(i as int) =~= all);
    match section_texts(&s.roles, storage) {
        Ok(changes) => {
            text::extend(&mut out, changes.as_str());
            Ok(out)
        },
        Err(e) => Err(e),
    }
}

/// What the pull request says at its end.
pub open spec fn closing_of(s: Seq<RoleStatusView>, merge: bool) -> Seq<char> {
    if !status::event_complete(s) {
        "Waiting for signatures from "@ + waiting_text(s)
            + ". Signers: check out the repository and run `tufops sign`."@
    } else if merge {
        "All signatures are in: merging."@
    } else {
        "All signatures are in: a maintainer can now review and merge this pull request."@
    }
}

/// What the automation does about a signing event.
#[derive(Debug)]
pub enum Plan {
    /// The event changes nothing: leave it alone.
    Nothing,
    /// Set the commit status and update the pull request.
    Report {
        /// Whether every signature is in.
        complete: bool,
        /// The description of the commit status.
        description: String,
        /// The text of the pull request.
        body: String,
        /// Whether to merge the event straight away. Only such events need no pull request.
        merge: bool,
    },
}

/// What the automation does about a signing event, as contracts speak of it.
pub enum PlanView {
    Nothing,
    Report { complete: bool, description: Seq<char>, body: Seq<char>, merge: bool },
}

impl View for Plan {
    type V = PlanView;

    open spec fn view(&self) -> PlanView {
        match self {
            Plan::Nothing => PlanView::Nothing,
            Plan::Report { complete, description, body, merge } => PlanView::Report {
                complete: *complete,
                description: description@,
                body: body@,
                merge: *merge,
            },
        }
    }
}

/// What the automation does about the signing event on `branch`, which changes the files.
pub open spec fn plan_of(
    c: ConfigView,
    base: Files,
    head: Files,
    branch: Seq<char>,
    changed_files: Seq<Seq<char>>,
) -> Result<PlanView, Fault> {
    if changed_files.len() == 0 {
        Ok(PlanView::Nothing)
    } else {
        match status::status_of(c, base, head) {
            Err(e) => Err(e),
            Ok(s) => match markdown_of(s, c.storage) {
                Err(e) => Err(e),
                Ok(table) => {
                    let merge = status::automatic(s, changed_files);
                    Ok(
                        PlanView::Report {
                            complete: status::event_complete(s),
                            description: description_of(s),
                            body: "## Signing event `"@ + branch + "`\n\n"@ + table + "\n"@
                                + closing_of(s, merge),
                            merge,
                        },
                    )
                },
            },
        }
    }
}

/// The automation merges an event by itself only where every signature is in, no offline key signs
/// it, and it changes nothing but metadata; in particular it merges no change to the config.
pub proof fn merges_only_online_metadata(
    c: ConfigView,
    base: Files,
    head: Files,
    branch: Seq<char>,
    changed_files: Seq<Seq<char>>,
)
    requires
        plan_of(c, base, head, branch, changed_files) matches Ok(
            PlanView::Report { merge, .. },
        ) && merge,
    ensures
        status::status_of(c, base, head) matches Ok(s) && status::event_complete(s)
            && !status::event_offline(s),
        !changed_files.contains("tufops.toml"@),
{
    reveal_strlit("tufops.toml");
    reveal_strlit("metadata/");
    if changed_files.contains("tufops.toml"@) {
        let i = choose|i: int| 0 <= i < changed_files.len() && changed_files[i] == "tufops.toml"@;
        assert("metadata/"@.is_prefix_of(changed_files[i]));
        assert("metadata/"@[0] == "tufops.toml"@[0]);
    }
}

/// Decides what to do about the signing event on `branch`, from its metadata `head`, that of main,
/// and the files that it changes.
pub fn signing_event(
    config: &Config,
    base: &Repo,
    head: &Repo,
    branch: &str,
    changed_files: &Vec<String>,
) -> (r: Result<Plan, Error>)
    ensures
        error::outcome(r) == plan_of(
            config@,
            base@,
            head@,
            branch@,
            text::views(changed_files@),
        ),
{
    assert(text::views(changed_files@).len() == changed_files@.len());
    if changed_files.len() == 0 {
        return Ok(Plan::Nothing);
    }
    let s = match EventStatus::new(config, base, head) {
        Ok(s) => s,
        Err(e) => {
            return Err(e);
        },
    };
    let table = match markdown(&s, config.storage().as_str()) {
        Ok(m) => m,
        Err(e) => {
            return Err(e);
        },
    };
    let merge = s.merges_automatically(changed_files);
    let complete = s.complete();
    let mut body = "## Signing event `".to_owned();
    text::extend(&mut body, branch);
    text::extend(&mut body, "`\n\n");
    text::extend(&mut body, table.as_str());
    text::extend(&mut body, "\n");
    let closing = if !complete {
        let mut line = "Waiting for signatures from ".to_owned();
        text::extend(&mut line, waiting_names(&s).as_str());
        text::extend(&mut line, ". Signers: check out the repository and run `tufops sign`.");
        line
    } else if merge {
        "All signatures are in: merging.".to_owned()
    } else {
        "All signatures are in: a maintainer can now review and merge this pull request.".to_owned()
    };
    text::extend(&mut body, closing.as_str());
    Ok(Plan::Report { complete, description: status_description(&s), body, merge })
}

/// The steps that merge main into a signing event, so its status reflects what merging it would
/// publish. The outcome is the files that the event changes.
pub open spec fn merge_main_next(branch: Seq<char>, tip: Seq<char>, replies: Seq<ReplyView>) -> NextView<
    Seq<Seq<char>>,
> {
    match git::command(git::fetch_args(), replies, 0) {
        NextView::Run(args) => NextView::Run(args),
        NextView::Done(Err(e)) => NextView::Done(Err(e)),
        NextView::Done(Ok(_)) => match git::command(
            seq!["checkout"@, "--quiet"@, "-B"@, branch, tip],
            replies,
            1,
        ) {
            NextView::Run(args) => NextView::Run(args),
            NextView::Done(Err(e)) => NextView::Done(Err(e)),
            NextView::Done(Ok(_)) => match git::succeeded(
                seq!["merge"@, "--no-edit"@, "origin/main"@],
                replies,
                2,
            ) {
                NextView::Run(args) => NextView::Run(args),
                NextView::Done(Err(e)) => NextView::Done(Err(e)),
                NextView::Done(Ok(false)) => NextView::Done(Err(Problem::Conflict { branch })),
                NextView::Done(Ok(true)) => git::changed_at("origin/main"@, replies, 3),
            },
        },
    }
}

/// Merges main into the signing event on `branch`, whose latest commit is `tip`, without pushing
/// that merge back. The outcome is the files that the event changes.
pub fn merge_main(branch: &str, tip: &str, replies: &Vec<Reply>) -> (r: Next<Vec<String>>)
    ensures
        git::list_seen(r) == merge_main_next(branch@, tip@, text::views(replies@)),
{
    match git::ask(git::list3("fetch", "--prune", "origin"), replies, 0) {
        Next::Run(args) => {
            return Next::Run(args);
        },
        Next::Done(Err(e)) => {
            return Next::Done(Err(e));
        },
        Next::Done(Ok(_)) => {},
    }
    match git::ask(git::list5("checkout", "--quiet", "-B", branch, tip), replies, 1) {
        Next::Run(args) => {
            return Next::Run(args);
        },
        Next::Done(Err(e)) => {
            return Next::Done(Err(e));
        },
        Next::Done(Ok(_)) => {},
    }
    match git::probe(git::list3("merge", "--no-edit", "origin/main"), replies, 2) {
        Next::Run(args) => {
            return Next::Run(args);
        },
        Next::Done(Err(e)) => {
            return Next::Done(Err(e));
        },
        Next::Done(Ok(false)) => {
            return Next::Done(Err(Problem::Conflict { branch: branch.to_owned() }));
        },
        Next::Done(Ok(true)) => {},
    }
    git::ask_changed("origin/main", replies, 3)
}

/// What came of merging an event into main.
#[derive(Debug)]
pub enum Merge {
    Merged,
    /// Another run moved main in the meantime, so that it could not be pushed: merge main again.
    Again(Error),
}

/// What came of merging an event into main, as contracts speak of it.
pub enum MergeView {
    Merged,
    Again(Fault),
}

impl View for Merge {
    type V = MergeView;

    open spec fn view(&self) -> MergeView {
        match self {
            Merge::Merged => MergeView::Merged,
            Merge::Again(e) => MergeView::Again(e@),
        }
    }
}

/// The steps that merge the event on `branch` into main and delete it. Where main has moved on in the
/// meantime, there are three attempts.
pub open spec fn push_event_next(branch: Seq<char>, attempt: int, replies: Seq<ReplyView>) -> NextView<
    MergeView,
> {
    match git::command(seq!["push"@, "origin"@, "HEAD:refs/heads/main"@], replies, 0) {
        NextView::Run(args) => NextView::Run(args),
        NextView::Done(Err(e)) => if attempt < 3 {
            NextView::Done(Ok(MergeView::Again(e)))
        } else {
            NextView::Done(Err(e))
        },
        NextView::Done(Ok(_)) => match git::command(
            seq!["push"@, "origin"@, "--delete"@, branch],
            replies,
            1,
        ) {
            NextView::Run(args) => NextView::Run(args),
            NextView::Done(Err(e)) => NextView::Done(Err(e)),
            NextView::Done(Ok(_)) => NextView::Done(Ok(MergeView::Merged)),
        },
    }
}

/// Merges the event on `branch` into main and deletes it. Where main could not be pushed and this was
/// not yet the third attempt, main is to be merged again.
pub fn push_event(branch: &str, attempt: u32, replies: &Vec<Reply>) -> (r: Next<Merge>)
    ensures
        git::seen(r, |m: Merge| m@) == push_event_next(branch@, attempt as int, text::views(replies@)),
{
    match git::ask(git::list3("push", "origin", "HEAD:refs/heads/main"), replies, 0) {
        Next::Run(args) => {
            return Next::Run(args);
        },
        Next::Done(Err(e)) => {
            if attempt < 3 {
                return Next::Done(Ok(Merge::Again(e)));
            }
            return Next::Done(Err(e));
        },
        Next::Done(Ok(_)) => {},
    }
    match git::ask(git::list4("push", "origin", "--delete", branch), replies, 1) {
        Next::Run(args) => Next::Run(args),
        Next::Done(Ok(_)) => Next::Done(Ok(Merge::Merged)),
        Next::Done(Err(e)) => Next::Done(Err(e)),
    }
}

/// The steps that find out, after main could not be pushed, whether it has moved on.
pub open spec fn moved_on_next(replies: Seq<ReplyView>) -> NextView<bool> {
    match git::command(git::fetch_args(), replies, 0) {
        NextView::Run(args) => NextView::Run(args),
        NextView::Done(Err(e)) => NextView::Done(Err(e)),
        NextView::Done(Ok(_)) => match git::command(seq!["rev-parse"@, "HEAD~1"@], replies, 1) {
            NextView::Run(args) => NextView::Run(args),
            NextView::Done(Err(e)) => NextView::Done(Err(e)),
            NextView::Done(Ok(ours)) => match git::command(
                seq!["rev-parse"@, "origin/main"@],
                replies,
                2,
            ) {
                NextView::Run(args) => NextView::Run(args),
                NextView::Done(Err(e)) => NextView::Done(Err(e)),
                NextView::Done(Ok(theirs)) => NextView::Done(Ok(ours != theirs)),
            },
        },
    }
}

/// Whether main has moved on, after it could not be pushed: then the run for the newer commit does
/// the work instead.
pub fn moved_on(replies: &Vec<Reply>) -> (r: Next<bool>)
    ensures
        git::bool_seen(r) == moved_on_next(text::views(replies@)),
{
    match git::ask(git::list3("fetch", "--prune", "origin"), replies, 0) {
        Next::Run(args) => {
            return Next::Run(args);
        },
        Next::Done(Err(e)) => {
            return Next::Done(Err(e));
        },
        Next::Done(Ok(_)) => {},
    }
    let ours = match git::ask(git::list2("rev-parse", "HEAD~1"), replies, 1) {
        Next::Run(args) => {
            return Next::Run(args);
        },
        Next::Done(Err(e)) => {
            return Next::Done(Err(e));
        },
        Next::Done(Ok(rev)) => rev,
    };
    match git::ask(git::list2("rev-parse", "origin/main"), replies, 2) {
        Next::Run(args) => Next::Run(args),
        Next::Done(Ok(theirs)) => Next::Done(Ok(ours != theirs)),
        Next::Done(Err(e)) => Next::Done(Err(e)),
    }
}

/// The message of the commit with new versions of online roles.
pub fn update_message(changed: &Vec<String>) -> (r: String)
    ensures
        r@ == "Update "@ + text::joined(text::views(changed@), ", "@),
{
    text::cat("Update ", text::join(changed, ", ").as_str())
}

/// The message of the commit with new versions of roles that are about to expire.
pub fn refresh_message(expiring: &Vec<String>) -> (r: String)
    ensures
        r@ == "Start new versions of "@ + text::joined(text::views(expiring@), ", "@),
{
    text::cat("Start new versions of ", text::join(expiring, ", ").as_str())
}

/// Whether a signing event for roles that are about to expire is open already.
pub fn refresh_open(events: &Vec<String>) -> (r: bool)
    ensures
        r == text::views(events@).contains("refresh"@),
{
    let ghost all = text::views(events@);
    let mut i: usize = 0;
    while i < events.len()
        invariant
            i <= events.len(),
            all == text::views(events@),
            forall|j: int| 0 <= j < i ==> #[trigger] all[j] != "refresh"@,
        decreases events.len() - i,
    {
        assert(all[i as int] == events@[i as int]@);
        if text::same(events[i].as_str(), "refresh") {
            return true;
        }
        i = i + 1;
    }
    false
}

/// What happened last in a run on main.
#[derive(Debug)]
pub enum MainEvent {
    /// New versions of the online roles that are due were started and signed.
    Updated(Vec<String>),
    /// They were committed, or there was nothing to commit.
    Committed(bool),
    /// The commit was pushed, or could not be.
    Pushed(bool),
    /// It turned out whether main has moved on.
    Moved(bool),
    /// The repository was published.
    Published,
    /// The open signing events were listed.
    Listed(Vec<String>),
    /// The config was applied, which started new versions of these roles.
    Applied(Vec<String>),
}

/// What happened last in a run on main, as contracts speak of it.
pub enum MainEventView {
    Updated(Seq<Seq<char>>),
    Committed(bool),
    Pushed(bool),
    Moved(bool),
    Published,
    Listed(Seq<Seq<char>>),
    Applied(Seq<Seq<char>>),
}

impl View for MainEvent {
    type V = MainEventView;

    open spec fn view(&self) -> MainEventView {
        match self {
            MainEvent::Updated(roles) => MainEventView::Updated(text::views(roles@)),
            MainEvent::Committed(any) => MainEventView::Committed(*any),
            MainEvent::Pushed(done) => MainEventView::Pushed(*done),
            MainEvent::Moved(on) => MainEventView::Moved(*on),
            MainEvent::Published => MainEventView::Published,
            MainEvent::Listed(events) => MainEventView::Listed(text::views(events@)),
            MainEvent::Applied(roles) => MainEventView::Applied(text::views(roles@)),
        }
    }
}

/// What a run on main does next.
#[derive(Debug)]
pub enum MainStep {
    /// Commit the metadata with this message.
    Commit(String),
    /// Push main.
    Push,
    /// Find out whether main has moved on.
    AskMoved,
    /// Leave the work to the run for the newer commit.
    Leave,
    /// Give up: main could not be pushed.
    Fail,
    /// Verify and publish the repository.
    Publish,
    /// List the open signing events.
    List,
    /// Apply the config to the metadata, to find the roles that are due.
    Apply,
    /// Start a signing event with the new versions, committed with this message.
    Refresh(String),
    /// There is nothing left to do.
    Finish,
}

/// What a run on main does next, as contracts speak of it.
pub enum MainStepView {
    Commit(Seq<char>),
    Push,
    AskMoved,
    Leave,
    Fail,
    Publish,
    List,
    Apply,
    Refresh(Seq<char>),
    Finish,
}

impl View for MainStep {
    type V = MainStepView;

    open spec fn view(&self) -> MainStepView {
        match self {
            MainStep::Commit(message) => MainStepView::Commit(message@),
            MainStep::Push => MainStepView::Push,
            MainStep::AskMoved => MainStepView::AskMoved,
            MainStep::Leave => MainStepView::Leave,
            MainStep::Fail => MainStepView::Fail,
            MainStep::Publish => MainStepView::Publish,
            MainStep::List => MainStepView::List,
            MainStep::Apply => MainStepView::Apply,
            MainStep::Refresh(message) => MainStepView::Refresh(message@),
            MainStep::Finish => MainStepView::Finish,
        }
    }
}

/// What a run on main does after an event: it commits and pushes the new versions of online roles,
/// publishes once main is pushed, and starts a signing event for roles that are due unless there is
/// one. Where main moved on before it could be pushed, the run for the newer commit does the rest.
pub open spec fn main_after(e: MainEventView) -> MainStepView {
    match e {
        MainEventView::Updated(roles) => MainStepView::Commit(
            "Update "@ + text::joined(roles, ", "@),
        ),
        MainEventView::Committed(true) => MainStepView::Push,
        MainEventView::Committed(false) => MainStepView::Publish,
        MainEventView::Pushed(true) => MainStepView::Publish,
        MainEventView::Pushed(false) => MainStepView::AskMoved,
        MainEventView::Moved(true) => MainStepView::Leave,
        MainEventView::Moved(false) => MainStepView::Fail,
        MainEventView::Published => MainStepView::List,
        MainEventView::Listed(events) => if events.contains("refresh"@) {
            MainStepView::Finish
        } else {
            MainStepView::Apply
        },
        MainEventView::Applied(roles) => if roles.len() == 0 {
            MainStepView::Finish
        } else {
            MainStepView::Refresh("Start new versions of "@ + text::joined(roles, ", "@))
        },
    }
}

/// Decides what a run on main does after an event.
pub fn main_branch(e: &MainEvent) -> (r: MainStep)
    ensures
        r@ == main_after(e@),
{
    match e {
        MainEvent::Updated(roles) => MainStep::Commit(update_message(roles)),
        MainEvent::Committed(any) => if *any {
            MainStep::Push
        } else {
            MainStep::Publish
        },
        MainEvent::Pushed(done) => if *done {
            MainStep::Publish
        } else {
            MainStep::AskMoved
        },
        MainEvent::Moved(on) => if *on {
            MainStep::Leave
        } else {
            MainStep::Fail
        },
        MainEvent::Published => MainStep::List,
        MainEvent::Listed(events) => if refresh_open(events) {
            MainStep::Finish
        } else {
            MainStep::Apply
        },
        MainEvent::Applied(roles) => {
            assert(text::views(roles@).len() == roles@.len());
            if roles.len() == 0 {
                MainStep::Finish
            } else {
                MainStep::Refresh(refresh_message(roles))
            }
        },
    }
}

/// Nothing is published while a commit waits to be pushed: what leads to publishing is that there was
/// nothing to commit, or that the commit was pushed.
pub proof fn publishes_what_is_pushed(e: MainEventView)
    requires
        main_after(e) is Publish,
    ensures
        e == MainEventView::Committed(false) || e == MainEventView::Pushed(true),
{
}

/// What to do about the pull request of a signing event.
#[derive(Clone, Copy, Debug, PartialEq, Eq, Structural)]
pub enum PullRequest {
    /// Update the one that is open.
    Update,
    /// Open one.
    Create,
    /// Leave it at that: the event is merged without one.
    Skip,
}

/// What to do about the pull request of a signing event: one that is open is kept up to date, and
/// only an event that is merged straight away goes without.
pub fn pull_request(open: bool, merge: bool) -> (r: PullRequest)
    ensures
        r is Update <==> open,
        r is Create <==> !open && !merge,
        r is Skip <==> !open && merge,
{
    if open {
        PullRequest::Update
    } else if merge {
        PullRequest::Skip
    } else {
        PullRequest::Create
    }
}

/// What an issue about a failed run says.
pub fn failure_body(branch: &str, run: &str) -> (r: String)
    ensures
        r@ == "tufops failed on `"@ + branch@ + "`: "@ + run@,
{
    let mut out = "tufops failed on `".to_owned();
    text::extend(&mut out, branch);
    text::extend(&mut out, "`: ");
    text::extend(&mut out, run);
    out
}

/// An open issue, or pull request, which GitHub lists among the issues.
#[derive(Debug)]
pub struct Issue {
    pub title: String,
    pub pull_request: bool,
}

impl View for Issue {
    type V = (Seq<char>, bool);

    open spec fn view(&self) -> (Seq<char>, bool) {
        (self.title@, self.pull_request)
    }
}

/// Whether the issue is the one about failed runs.
pub open spec fn about_failure(issue: (Seq<char>, bool)) -> bool {
    issue.0 == "tufops automation failed"@ && !issue.1
}

/// The first of the open issues that is about failed runs, which gets a comment in place of a new
/// issue.
pub fn failure_issue(open: &Vec<Issue>) -> (r: Option<usize>)
    ensures
        match r {
            Some(i) => i < open@.len() && about_failure(open@[i as int]@) && forall|j: int|
                0 <= j < i ==> !about_failure((#[trigger] open@[j])@),
            None => forall|j: int| 0 <= j < open@.len() ==> !about_failure((#[trigger] open@[j])@),
        },
{
    let mut i: usize = 0;
    while i < open.len()
        invariant
            i <= open.len(),
            forall|j: int| 0 <= j < i ==> !about_failure((#[trigger] open@[j])@),
        decreases open.len() - i,
    {
        if text::same(open[i].title.as_str(), "tufops automation failed") && !open[i].pull_request {
            return Some(i);
        }
        i = i + 1;
    }
    None
}

} // verus!
