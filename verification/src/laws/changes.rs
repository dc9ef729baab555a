//! What the status of a signing event promises of changes: that it lists every one, and invents none.

use vstd::prelude::*;

use crate::config;
use crate::config::ConfigView;
use crate::documents;
use crate::documents::{DelegationView, DescriptionView, RoleKeysView, TargetsView};
use crate::error;
use crate::laws::publishing;
use crate::laws::reporting;
use crate::laws::signing;
use crate::laws::terms;
use crate::order;
use crate::repo;
use crate::repo::Files;
use crate::status;
use crate::status::{ChangeView, Fate, Index, Sides};
use crate::strmap;
use crate::text;

verus! {

/// Whether a role that may be new had the key before.
pub open spec fn had(was: Option<RoleKeysView>, id: Seq<char>) -> bool {
    was matches Some(k) && k.key_ids.contains(id)
}

/// Whether `ch` is a change of the keys or of the threshold of what is called `what`: a key that is
/// there now and was not before, one that was there and is not now, a threshold that is another one,
/// higher or lower, or the threshold of what is new.
pub open spec fn key_change(
    c: ConfigView,
    what: Seq<char>,
    was: Option<RoleKeysView>,
    new: RoleKeysView,
    ch: ChangeView,
) -> bool {
    ||| exists|id: Seq<char>| #[trigger]
        new.key_ids.contains(id) && !had(was, id) && ch == ChangeView::Other(
            what + ": key "@ + status::key_text(c, id) + " added"@,
        )
    ||| exists|id: Seq<char>| #[trigger]
        had(was, id) && !new.key_ids.contains(id) && ch == ChangeView::Other(
            what + ": key "@ + status::key_text(c, id) + " removed"@,
        )
    ||| was matches Some(k) && k.threshold != new.threshold && ch == ChangeView::Other(
        what + ": threshold "@ + text::decimal(k.threshold as nat) + " → "@ + text::decimal(
            new.threshold as nat,
        ),
    )
    ||| was is None && ch == ChangeView::Other(
        what + ": threshold "@ + text::decimal(new.threshold as nat),
    )
}

/// Every word of the set has its change, and each change its word.
proof fn others_hold(before: Seq<char>, words: Set<Seq<char>>, after: Seq<char>, ch: ChangeView)
    requires
        words.finite(),
    ensures
        status::others(before, strmap::listing(words), after).contains(ch) <==> exists|w: Seq<char>| #[trigger]
            words.contains(w) && ch == ChangeView::Other(before + w + after),
{
    let list = strmap::listing(words);
    strmap::listing_exists(words);
    let all = status::others(before, list, after);
    if all.contains(ch) {
        let i = choose|i: int| 0 <= i < all.len() && all[i] == ch;
        assert(list.to_set().contains(list[i]));
        assert(words.contains(list[i]));
    }
    if exists|w: Seq<char>| #[trigger]
        words.contains(w) && ch == ChangeView::Other(before + w + after) {
        let w = choose|w: Seq<char>| #[trigger]
            words.contains(w) && ch == ChangeView::Other(before + w + after);
        assert(list.to_set().contains(w));
        let i = choose|i: int| 0 <= i < list.len() && list[i] == w;
        assert(all[i] == ch);
    }
}

/// Every key of the set has its change, and each change its key.
proof fn key_others_hold(
    c: ConfigView,
    before: Seq<char>,
    ids: Set<Seq<char>>,
    after: Seq<char>,
    ch: ChangeView,
)
    requires
        ids.finite(),
    ensures
        status::others(before, strmap::listing(status::key_texts(c, ids)), after).contains(ch)
            <==> exists|id: Seq<char>| #[trigger]
            ids.contains(id) && ch == ChangeView::Other(before + status::key_text(c, id) + after),
{
    let f = |id: Seq<char>| status::key_text(c, id);
    let words = status::key_texts(c, ids);
    ids.lemma_map_finite(f);
    others_hold(before, words, after, ch);
    if exists|id: Seq<char>| #[trigger]
        ids.contains(id) && ch == ChangeView::Other(before + status::key_text(c, id) + after) {
        let id = choose|id: Seq<char>| #[trigger]
            ids.contains(id) && ch == ChangeView::Other(before + status::key_text(c, id) + after);
        assert(words.contains(f(id)));
    }
    if exists|w: Seq<char>| #[trigger]
        words.contains(w) && ch == ChangeView::Other(before + w + after) {
        let w = choose|w: Seq<char>| #[trigger]
            words.contains(w) && ch == ChangeView::Other(before + w + after);
        let id = choose|id: Seq<char>| ids.contains(id) && w == f(id);
        assert(ids.contains(id));
    }
}

/// No change of keys or threshold is concealed, and none is invented.
pub proof fn every_key_change_is_listed(
    c: ConfigView,
    what: Seq<char>,
    was: Option<RoleKeysView>,
    new: RoleKeysView,
    ch: ChangeView,
)
    requires
        was matches Some(k) ==> k.key_ids.finite(),
        new.key_ids.finite(),
    ensures
        status::key_changes_of(c, what, was, new).contains(ch) <==> key_change(c, what, was, new, ch),
{
    let old_ids = status::ids_before(was);
    let more = new.key_ids.difference(old_ids);
    let less = old_ids.difference(new.key_ids);
    let before = what + ": key "@;
    key_others_hold(c, before, more, " added"@, ch);
    key_others_hold(c, before, less, " removed"@, ch);
    let a = status::others(before, strmap::listing(status::key_texts(c, more)), " added"@);
    let b = status::others(before, strmap::listing(status::key_texts(c, less)), " removed"@);
    let t = status::threshold_changes(what, was, new);
    signing::joined_holds(a, b, ch);
    signing::joined_holds(a + b, t, ch);
    assert forall|id: Seq<char>| #[trigger] old_ids.contains(id) <==> had(was, id) by {}
    if exists|id: Seq<char>| #[trigger]
        new.key_ids.contains(id) && !had(was, id) && ch == ChangeView::Other(
            before + status::key_text(c, id) + " added"@,
        ) {
        let id = choose|id: Seq<char>| #[trigger]
            new.key_ids.contains(id) && !had(was, id) && ch == ChangeView::Other(
                before + status::key_text(c, id) + " added"@,
            );
        assert(more.contains(id));
    }
    if exists|id: Seq<char>| #[trigger]
        had(was, id) && !new.key_ids.contains(id) && ch == ChangeView::Other(
            before + status::key_text(c, id) + " removed"@,
        ) {
        let id = choose|id: Seq<char>| #[trigger]
            had(was, id) && !new.key_ids.contains(id) && ch == ChangeView::Other(
                before + status::key_text(c, id) + " removed"@,
            );
        assert(less.contains(id));
    }
    if a.contains(ch) {
        let id = choose|id: Seq<char>| #[trigger]
            more.contains(id) && ch == ChangeView::Other(
                before + status::key_text(c, id) + " added"@,
            );
        assert(new.key_ids.contains(id));
    }
    if b.contains(ch) {
        let id = choose|id: Seq<char>| #[trigger]
            less.contains(id) && ch == ChangeView::Other(
                before + status::key_text(c, id) + " removed"@,
            );
        assert(had(was, id));
    }
    if t.len() > 0 {
        assert(t.contains(t[0]));
        assert(t.contains(ch) <==> t[0] == ch);
    }
}

/// The keys and threshold that the root in `files` gives a top-level role, if there is a root.
pub open spec fn given(files: Files, role: Seq<char>) -> Option<RoleKeysView> {
    if terms::has(files, "root"@) {
        Some(
            terms::given_by_root((documents::root_in(terms::bytes_of(files, "root"@))->0).1, role),
        )
    } else {
        None
    }
}

/// Whether `ch` is a change that root makes to the keys or the threshold of one of the four roles.
pub open spec fn root_change(c: ConfigView, base: Files, head: Files, ch: ChangeView) -> bool {
    exists|role: Seq<char>| #[trigger]
        terms::is_top_level(role) && key_change(
            c,
            role + " role"@,
            given(base, role),
            given(head, role)->0,
            ch,
        )
}

/// The changes of root conceal no change of keys or thresholds of any of the four roles, and invent
/// none.
pub proof fn every_root_change_is_listed(
    c: ConfigView,
    base: Files,
    head: Files,
    base_index: Index,
    head_index: Index,
    ch: ChangeView,
)
    requires
        terms::proper(base),
        terms::proper(head),
        status::changes_of(c, base, head, "root"@, base_index, head_index) is Ok,
    ensures
        status::changes_of(c, base, head, "root"@, base_index, head_index)->Ok_0.contains(ch)
            <==> root_change(c, base, head, ch),
{
    config::different_top_level();
    let new = (repo::root_of(head)->Ok_0).1;
    let was = status::root_if_any(base)->Ok_0;
    assert(head.dom().contains("root"@ + ".json"@));
    assert(terms::has(base, "root"@) ==> base.dom().contains("root"@ + ".json"@));
    let r = status::top_level_changes(c, was, new, "root"@);
    let t = status::top_level_changes(c, was, new, "targets"@);
    let s = status::top_level_changes(c, was, new, "snapshot"@);
    let p = status::top_level_changes(c, was, new, "timestamp"@);
    signing::joined_holds(r, t, ch);
    signing::joined_holds(r + t, s, ch);
    signing::joined_holds(r + t + s, p, ch);
    assert forall|role: Seq<char>| #[trigger] terms::is_top_level(role) implies
        status::top_level_changes(c, was, new, role).contains(ch) == key_change(
        c,
        role + " role"@,
        given(base, role),
        given(head, role)->0,
        ch,
    ) by {
        every_key_change_is_listed(
            c,
            role + " role"@,
            given(base, role),
            given(head, role)->0,
            ch,
        );
    }
    assert(terms::is_top_level("root"@) && terms::is_top_level("targets"@) && terms::is_top_level(
        "snapshot"@,
    ) && terms::is_top_level("timestamp"@));
}

/// Whether the `i`-th delegation is the last one to the role `name`: the one that the changes speak of.
pub open spec fn last_delegation(t: TargetsView, name: Seq<char>, i: int) -> bool {
    &&& 0 <= i < t.delegations.roles.len()
    &&& t.delegations.roles[i].name == name
    &&& forall|j: int|
        i < j < t.delegations.roles.len() ==> (#[trigger] t.delegations.roles[j]).name != name
}

/// Whether this is the delegation to the role `name` in metadata that may be missing.
pub open spec fn delegated(t: Option<TargetsView>, name: Seq<char>, d: Option<DelegationView>) -> bool {
    match d {
        Some(d) => t is Some && exists|i: int| #[trigger]
            last_delegation(t->0, name, i) && t->0.delegations.roles[i] == d,
        None => t is None || forall|i: int|
            0 <= i < t->0.delegations.roles.len() ==> (#[trigger] t->0.delegations.roles[i]).name
                != name,
    }
}

/// The threshold and keys of a delegation.
pub open spec fn delegation_keys(d: DelegationView) -> RoleKeysView {
    RoleKeysView { threshold: d.threshold, key_ids: d.key_ids }
}

/// Whether a delegation that may be new had the path before.
pub open spec fn covered(was: Option<DelegationView>, path: Seq<char>) -> bool {
    was matches Some(d) && d.paths.contains(path)
}

/// Whether `ch` is a change of the delegation to the role `name`: that it is new or gone, a path that
/// is there on one side only, or a change of its keys or its threshold.
pub open spec fn delegation_change(
    c: ConfigView,
    name: Seq<char>,
    was: Option<DelegationView>,
    new: Option<DelegationView>,
    ch: ChangeView,
) -> bool {
    let what = "delegation "@ + name;
    match new {
        None => was is Some && ch == ChangeView::Other(what + " removed"@),
        Some(d) => {
            ||| was is None && ch == ChangeView::Other(what + " added"@)
            ||| exists|path: Seq<char>| #[trigger]
                d.paths.contains(path) && !covered(was, path) && ch == ChangeView::Other(
                    what + ": path "@ + path + " added"@,
                )
            ||| exists|path: Seq<char>| #[trigger]
                covered(was, path) && !d.paths.contains(path) && ch == ChangeView::Other(
                    what + ": path "@ + path + " removed"@,
                )
            ||| key_change(
                c,
                what,
                match was {
                    Some(o) => Some(delegation_keys(o)),
                    None => None,
                },
                delegation_keys(d),
                ch,
            )
        },
    }
}

/// The delegations by name are the last ones of their names.
proof fn by_name_holds(t: TargetsView, n: int, name: Seq<char>)
    requires
        0 <= n <= t.delegations.roles.len(),
    ensures
        ({
            let m = status::by_name(t.delegations.roles.take(n));
            if m.dom().contains(name) {
                exists|i: int|
                    0 <= i < n && (#[trigger] t.delegations.roles[i]) == m[name] && m[name].name == name
                        && forall|j: int|
                        i < j < n ==> (#[trigger] t.delegations.roles[j]).name != name
            } else {
                forall|i: int| 0 <= i < n ==> (#[trigger] t.delegations.roles[i]).name != name
            }
        }),
        status::by_name(t.delegations.roles.take(n)).dom().finite(),
    decreases n,
{
    let roles = t.delegations.roles.take(n);
    if n > 0 {
        by_name_holds(t, n - 1, name);
        assert(roles.drop_last() =~= t.delegations.roles.take(n - 1));
        assert(roles.last() == t.delegations.roles[n - 1]);
        let earlier = status::by_name(roles.drop_last());
        let m = status::by_name(roles);
        if m.dom().contains(name) && roles.last().name != name {
            let i = choose|i: int|
                0 <= i < n - 1 && (#[trigger] t.delegations.roles[i]) == earlier[name]
                    && earlier[name].name == name && forall|j: int|
                    i < j < n - 1 ==> (#[trigger] t.delegations.roles[j]).name != name;
            assert(t.delegations.roles[i] == m[name]);
        }
    }
}

/// The delegation to a role is the one by its name.
proof fn delegated_holds(t: Option<TargetsView>, name: Seq<char>, d: Option<DelegationView>)
    ensures
        delegated(t, name, status::found(status::delegations_before(t), name)),
        delegated(t, name, d) ==> d == status::found(status::delegations_before(t), name),
        status::delegations_before(t).dom().finite(),
{
    if t is Some {
        let roles = t->0.delegations.roles;
        by_name_holds(t->0, roles.len() as int, name);
        assert(roles.take(roles.len() as int) =~= roles);
        let m = status::by_name(roles);
        if m.dom().contains(name) {
            let i = choose|i: int|
                0 <= i < roles.len() && (#[trigger] t->0.delegations.roles[i]) == m[name]
                    && m[name].name == name && forall|j: int|
                    i < j < roles.len() ==> (#[trigger] t->0.delegations.roles[j]).name != name;
            assert(last_delegation(t->0, name, i));
            if d is Some && delegated(t, name, d) {
                let k = choose|k: int| #[trigger]
                    last_delegation(t->0, name, k) && t->0.delegations.roles[k] == d->0;
                assert(k == i) by {
                    assert(t->0.delegations.roles[k].name == name);
                    assert(t->0.delegations.roles[i].name == name);
                }
            }
        }
    }
}

/// The changes of one delegation.
proof fn delegation_changes_hold(
    c: ConfigView,
    name: Seq<char>,
    was: Option<DelegationView>,
    new: Option<DelegationView>,
    ch: ChangeView,
)
    requires
        was is Some || new is Some,
        was matches Some(d) ==> d.paths.finite() && d.key_ids.finite(),
        new matches Some(d) ==> d.paths.finite() && d.key_ids.finite(),
    ensures
        status::delegation_changes_of(c, name, was, new).contains(ch) <==> delegation_change(
            c,
            name,
            was,
            new,
            ch,
        ),
{
    let what = "delegation "@ + name;
    if new is None {
        let all = seq![ChangeView::Other(what + " removed"@)];
        assert(all.contains(all[0]));
    } else {
        let d = new->0;
        let more = d.paths.difference(status::paths_before(was));
        let less = status::paths_before(was).difference(d.paths);
        let start = if was is None {
            seq![ChangeView::Other(what + " added"@)]
        } else {
            Seq::empty()
        };
        let a = status::others(what + ": path "@, strmap::listing(more), " added"@);
        let b = status::others(what + ": path "@, strmap::listing(less), " removed"@);
        let k = status::key_changes_of(c, what, status::keys_before(was), delegation_keys(d));
        others_hold(what + ": path "@, more, " added"@, ch);
        others_hold(what + ": path "@, less, " removed"@, ch);
        every_key_change_is_listed(c, what, status::keys_before(was), delegation_keys(d), ch);
        signing::joined_holds(start, a, ch);
        signing::joined_holds(start + a, b, ch);
        signing::joined_holds(start + a + b, k, ch);
        if was is None {
            assert(start.contains(start[0]));
        }
        assert forall|path: Seq<char>| #[trigger]
            status::paths_before(was).contains(path) <==> covered(was, path) by {}
        if exists|path: Seq<char>| #[trigger]
            d.paths.contains(path) && !covered(was, path) && ch == ChangeView::Other(
                what + ": path "@ + path + " added"@,
            ) {
            let path = choose|path: Seq<char>| #[trigger]
                d.paths.contains(path) && !covered(was, path) && ch == ChangeView::Other(
                    what + ": path "@ + path + " added"@,
                );
            assert(more.contains(path));
        }
        if exists|path: Seq<char>| #[trigger]
            covered(was, path) && !d.paths.contains(path) && ch == ChangeView::Other(
                what + ": path "@ + path + " removed"@,
            ) {
            let path = choose|path: Seq<char>| #[trigger]
                covered(was, path) && !d.paths.contains(path) && ch == ChangeView::Other(
                    what + ": path "@ + path + " removed"@,
                );
            assert(less.contains(path));
        }
        if a.contains(ch) {
            let path = choose|path: Seq<char>| #[trigger]
                more.contains(path) && ch == ChangeView::Other(what + ": path "@ + path + " added"@);
            assert(d.paths.contains(path));
        }
        if b.contains(ch) {
            let path = choose|path: Seq<char>| #[trigger]
                less.contains(path) && ch == ChangeView::Other(
                    what + ": path "@ + path + " removed"@,
                );
            assert(covered(was, path));
        }
    }
}

/// The changes of the delegations to several roles.
proof fn all_delegation_changes_hold(
    c: ConfigView,
    was: Map<Seq<char>, DelegationView>,
    new: Map<Seq<char>, DelegationView>,
    names: Seq<Seq<char>>,
    ch: ChangeView,
)
    ensures
        status::all_delegation_changes(c, was, new, names).contains(ch) <==> exists|i: int|
            0 <= i < names.len() && status::delegation_changes_of(
                c,
                #[trigger] names[i],
                status::found(was, names[i]),
                status::found(new, names[i]),
            ).contains(ch),
    decreases names.len(),
{
    if names.len() > 0 {
        let rest = names.drop_last();
        let n = names.len() - 1;
        all_delegation_changes_hold(c, was, new, rest, ch);
        let a = status::all_delegation_changes(c, was, new, rest);
        let b = status::delegation_changes_of(
            c,
            names[n],
            status::found(was, names[n]),
            status::found(new, names[n]),
        );
        signing::joined_holds(a, b, ch);
        assert(names.last() == names[n]);
        if a.contains(ch) {
            let i = choose|i: int|
                0 <= i < rest.len() && status::delegation_changes_of(
                    c,
                    #[trigger] rest[i],
                    status::found(was, rest[i]),
                    status::found(new, rest[i]),
                ).contains(ch);
            assert(names[i] == rest[i]);
        }
        if exists|i: int|
            0 <= i < names.len() && status::delegation_changes_of(
                c,
                #[trigger] names[i],
                status::found(was, names[i]),
                status::found(new, names[i]),
            ).contains(ch) {
            let i = choose|i: int|
                0 <= i < names.len() && status::delegation_changes_of(
                    c,
                    #[trigger] names[i],
                    status::found(was, names[i]),
                    status::found(new, names[i]),
                ).contains(ch);
            if i < n {
                assert(rest[i] == names[i]);
            }
        }
    }
}

/// Whether `ch` is a change of one of the delegations.
pub open spec fn delegations_change(
    c: ConfigView,
    was: Option<TargetsView>,
    new: TargetsView,
    ch: ChangeView,
) -> bool {
    exists|name: Seq<char>, a: Option<DelegationView>, b: Option<DelegationView>|
        #![trigger delegated(was, name, a), delegated(Some(new), name, b)]
        delegated(was, name, a) && delegated(Some(new), name, b) && delegation_change(
            c,
            name,
            a,
            b,
            ch,
        )
}

/// The delegation of metadata whose delegations are finite is finite.
proof fn delegation_finite(t: Option<TargetsView>, name: Seq<char>, d: DelegationView)
    requires
        t matches Some(t) ==> terms::delegations_finite(t),
        delegated(t, name, Some(d)),
    ensures
        d.paths.finite(),
        d.key_ids.finite(),
{
    let i = choose|i: int| #[trigger]
        last_delegation(t->0, name, i) && t->0.delegations.roles[i] == d;
    assert(t->0.delegations.roles[i].key_ids.finite());
}

/// No change of a delegation is concealed, neither of its paths nor of its keys or threshold, and none
/// is invented.
pub proof fn every_delegation_change_is_listed(
    c: ConfigView,
    was: Option<TargetsView>,
    new: TargetsView,
    ch: ChangeView,
)
    requires
        was matches Some(t) ==> terms::delegations_finite(t),
        terms::delegations_finite(new),
    ensures
        ({
            let a = status::delegations_before(was);
            let b = status::by_name(new.delegations.roles);
            status::all_delegation_changes(
                c,
                a,
                b,
                strmap::listing(a.dom().union(b.dom())),
            ).contains(ch) <==> delegations_change(c, was, new, ch)
        }),
{
    let a = status::delegations_before(was);
    let b = status::by_name(new.delegations.roles);
    assert(b == status::delegations_before(Some(new)));
    delegated_holds(was, arbitrary(), arbitrary());
    delegated_holds(Some(new), arbitrary(), arbitrary());
    let set = a.dom().union(b.dom());
    let names = strmap::listing(set);
    strmap::listing_exists(set);
    all_delegation_changes_hold(c, a, b, names, ch);
    if status::all_delegation_changes(c, a, b, names).contains(ch) {
        let i = choose|i: int|
            0 <= i < names.len() && status::delegation_changes_of(
                c,
                #[trigger] names[i],
                status::found(a, names[i]),
                status::found(b, names[i]),
            ).contains(ch);
        let name = names[i];
        assert(names.to_set().contains(name));
        let x = status::found(a, name);
        let y = status::found(b, name);
        delegated_holds(was, name, None);
        delegated_holds(Some(new), name, None);
        if x is Some {
            delegation_finite(was, name, x->0);
        }
        if y is Some {
            delegation_finite(Some(new), name, y->0);
        }
        delegation_changes_hold(c, name, x, y, ch);
        assert(delegated(was, name, x) && delegated(Some(new), name, y));
    }
    if delegations_change(c, was, new, ch) {
        let (name, x, y) = choose|
            name: Seq<char>,
            x: Option<DelegationView>,
            y: Option<DelegationView>,
        |
            #![trigger delegated(was, name, x), delegated(Some(new), name, y)]
            delegated(was, name, x) && delegated(Some(new), name, y) && delegation_change(
                c,
                name,
                x,
                y,
                ch,
            );
        delegated_holds(was, name, x);
        delegated_holds(Some(new), name, y);
        if x is Some {
            delegation_finite(was, name, x->0);
        }
        if y is Some {
            delegation_finite(Some(new), name, y->0);
        }
        delegation_changes_hold(c, name, x, y, ch);
        assert(set.contains(name));
        assert(names.to_set().contains(name));
        let i = choose|i: int| 0 <= i < names.len() && names[i] == name;
        assert(status::delegation_changes_of(
            c,
            names[i],
            status::found(a, names[i]),
            status::found(b, names[i]),
        ).contains(ch));
    }
}

/// The targets that `role` lists in `files`; none if it has no metadata there.
pub open spec fn targets_at(files: Files, role: Seq<char>) -> Map<Seq<char>, DescriptionView> {
    if terms::has(files, role) {
        (documents::targets_in(terms::bytes_of(files, role))->0).1.targets
    } else {
        Map::empty()
    }
}

/// Whether the targets hold the file under the path.
pub open spec fn holds(m: Map<Seq<char>, DescriptionView>, path: Seq<char>, d: DescriptionView) -> bool {
    m.dom().contains(path) && m[path] == d
}

/// Whether another role than `role` lists the file under the same path, and it is the `i`-th one of
/// those that list targets.
pub open spec fn held_by(
    files: Files,
    role: Seq<char>,
    path: Seq<char>,
    d: DescriptionView,
    i: int,
) -> bool {
    let names = repo::targets_roles_of(files);
    0 <= i < names.len() && names[i] != role && holds(targets_at(files, names[i]), path, d)
}

/// Whether another role than `role` lists the file under the same path, and `other` is the first one.
pub open spec fn held_first_by(
    files: Files,
    role: Seq<char>,
    path: Seq<char>,
    d: DescriptionView,
    other: Seq<char>,
) -> bool {
    exists|i: int| #[trigger]
        held_by(files, role, path, d, i) && repo::targets_roles_of(files)[i] == other && forall|j: int|
            0 <= j < i ==> !#[trigger] held_by(files, role, path, d, j)
}

/// Whether another role than `role` lists the file under the same path.
pub open spec fn held_elsewhere(
    files: Files,
    role: Seq<char>,
    path: Seq<char>,
    d: DescriptionView,
) -> bool {
    exists|other: Seq<char>|
        other != role && #[trigger] terms::lists(files, other) && holds(
            targets_at(files, other),
            path,
            d,
        )
}

/// Whether `role` lists a target that it did not list, and that `other` listed as it is.
pub open spec fn came(base: Files, head: Files, role: Seq<char>, path: Seq<char>, other: Seq<char>) -> bool {
    !targets_at(base, role).dom().contains(path) && targets_at(head, role).dom().contains(path)
        && held_first_by(base, role, path, targets_at(head, role)[path], other)
}

/// Whether `role` no longer lists a target, and `other` lists it as it was.
pub open spec fn went(base: Files, head: Files, role: Seq<char>, path: Seq<char>, other: Seq<char>) -> bool {
    targets_at(base, role).dom().contains(path) && !targets_at(head, role).dom().contains(path)
        && held_first_by(head, role, path, targets_at(base, role)[path], other)
}

/// Whether the change tells of the file: its length, its digest and where it is stored.
pub open spec fn tells_file(ch: ChangeView, path: Seq<char>, kind: Seq<char>, d: DescriptionView) -> bool {
    ch matches ChangeView::Target { path: p, kind: k, file: Some(f) } && p == path && k == kind
        && f.length == d.length && d.sha256 == Some(f.sha256) && publishing::stored_as(
        path,
        f.sha256,
        f.object,
    )
}

/// Whether `ch` tells what becomes of a target that is listed otherwise than before, and neither came
/// from another role nor went to one.
pub open spec fn one_target_change(
    base: Files,
    head: Files,
    role: Seq<char>,
    path: Seq<char>,
    ch: ChangeView,
) -> bool {
    let was = targets_at(base, role);
    let new = targets_at(head, role);
    ||| !was.dom().contains(path) && new.dom().contains(path) && !held_elsewhere(
        base,
        role,
        path,
        new[path],
    ) && tells_file(ch, path, "added"@, new[path])
    ||| was.dom().contains(path) && new.dom().contains(path) && was[path] != new[path] && tells_file(
        ch,
        path,
        "changed"@,
        new[path],
    )
    ||| was.dom().contains(path) && !new.dom().contains(path) && !held_elsewhere(
        head,
        role,
        path,
        was[path],
    ) && ch == (ChangeView::Target { path, kind: "removed"@, file: None })
}

/// So many targets in words.
pub open spec fn counted(n: nat) -> Seq<char> {
    if n == 1 {
        "1 target"@
    } else {
        text::decimal(n) + " targets"@
    }
}

/// The targets of `role` that came from `other`.
pub open spec fn all_from(base: Files, head: Files, role: Seq<char>, other: Seq<char>) -> Set<Seq<char>> {
    Set::new(|path: Seq<char>| came(base, head, role, path, other))
}

/// The targets of `role` that went to `other`.
pub open spec fn all_to(base: Files, head: Files, role: Seq<char>, other: Seq<char>) -> Set<Seq<char>> {
    Set::new(|path: Seq<char>| went(base, head, role, path, other))
}

/// Whether `ch` is a change of the targets that `role` lists: one is added, changed or removed, or some
/// moved unchanged from another role or to one, and the change counts them.
pub open spec fn targets_change(base: Files, head: Files, role: Seq<char>, ch: ChangeView) -> bool {
    ||| exists|path: Seq<char>| #[trigger] one_target_change(base, head, role, path, ch)
    ||| exists|other: Seq<char>|
        #![trigger all_from(base, head, role, other)]
        all_from(base, head, role, other).len() > 0 && ch == ChangeView::Other(
            counted(all_from(base, head, role, other).len()) + " moved here unchanged from "@ + other,
        )
    ||| exists|other: Seq<char>|
        #![trigger all_to(base, head, role, other)]
        all_to(base, head, role, other).len() > 0 && ch == ChangeView::Other(
            counted(all_to(base, head, role, other).len()) + " moved unchanged to "@ + other,
        )
}

/// The index has the targets of each role.
proof fn index_holds(files: Files, names: Seq<Seq<char>>)
    requires
        status::index_of(files, names) is Ok,
    ensures
        status::index_of(files, names)->Ok_0.len() == names.len(),
        forall|i: int|
            0 <= i < names.len() ==> (#[trigger] status::index_of(files, names)->Ok_0[i]) == (
                names[i],
                targets_at(files, names[i]),
            ),
    decreases names.len(),
{
    if names.len() > 0 {
        let rest = names.drop_last();
        index_holds(files, rest);
        config::different_top_level();
        let index = status::index_of(files, names)->Ok_0;
        assert forall|i: int| 0 <= i < names.len() implies (#[trigger] index[i]) == (
            names[i],
            targets_at(files, names[i]),
        ) by {
            if i < rest.len() {
                assert(rest[i] == names[i]);
                assert(status::index_of(files, rest)->Ok_0[i] == (
                    rest[i],
                    targets_at(files, rest[i]),
                ));
            }
        }
    }
}

/// The other role that is found is the first that lists the same.
proof fn holder_holds(
    files: Files,
    role: Seq<char>,
    path: Seq<char>,
    d: DescriptionView,
    n: int,
)
    requires
        status::index_of(files, repo::targets_roles_of(files)) is Ok,
        0 <= n <= repo::targets_roles_of(files).len(),
    ensures
        ({
            let names = repo::targets_roles_of(files);
            let index = status::index_of(files, names)->Ok_0;
            match status::other_holder(index.skip(n), role, path, d) {
                Some(other) => exists|i: int|
                    n <= i && #[trigger] held_by(files, role, path, d, i) && names[i] == other
                        && forall|j: int| n <= j < i ==> !#[trigger] held_by(files, role, path, d, j),
                None => forall|i: int| n <= i ==> !#[trigger] held_by(files, role, path, d, i),
            }
        }),
    decreases repo::targets_roles_of(files).len() - n,
{
    let names = repo::targets_roles_of(files);
    let index = status::index_of(files, names)->Ok_0;
    index_holds(files, names);
    if n < names.len() {
        holder_holds(files, role, path, d, n + 1);
        assert(index.skip(n).skip(1) =~= index.skip(n + 1));
        assert(index.skip(n)[0] == index[n]);
        assert(held_by(files, role, path, d, n) <==> names[n] != role && status::found(
            index[n].1,
            path,
        ) == Some(d));
        if !held_by(files, role, path, d, n) && status::other_holder(
            index.skip(n),
            role,
            path,
            d,
        ) is Some {
            let other = status::other_holder(index.skip(n + 1), role, path, d)->0;
            let i = choose|i: int|
                n + 1 <= i && #[trigger] held_by(files, role, path, d, i) && names[i] == other
                    && forall|j: int|
                    n + 1 <= j < i ==> !#[trigger] held_by(files, role, path, d, j);
            assert(held_by(files, role, path, d, i));
        }
    }
}

/// The other role that is found is the first that lists the same, and one is found where there is one.
proof fn first_holder(
    files: Files,
    role: Seq<char>,
    path: Seq<char>,
    d: DescriptionView,
    other: Seq<char>,
)
    requires
        files.dom().finite(),
        status::index_of(files, repo::targets_roles_of(files)) is Ok,
    ensures
        ({
            let index = status::index_of(files, repo::targets_roles_of(files))->Ok_0;
            let r = status::other_holder(index, role, path, d);
            &&& r == Some(other) <==> held_first_by(files, role, path, d, other)
            &&& r is Some <==> held_elsewhere(files, role, path, d)
        }),
{
    let names = repo::targets_roles_of(files);
    let index = status::index_of(files, names)->Ok_0;
    holder_holds(files, role, path, d, 0);
    assert(index.skip(0) =~= index);
    let r = status::other_holder(index, role, path, d);
    if r is Some {
        let i = choose|i: int|
            0 <= i && #[trigger] held_by(files, role, path, d, i) && names[i] == r->0 && forall|j: int|
                0 <= j < i ==> !#[trigger] held_by(files, role, path, d, j);
        publishing::role_listed(files, names[i]);
        assert(names.contains(names[i]));
        assert(held_elsewhere(files, role, path, d));
        if held_first_by(files, role, path, d, other) {
            let k = choose|k: int| #[trigger]
                held_by(files, role, path, d, k) && names[k] == other && forall|j: int|
                    0 <= j < k ==> !#[trigger] held_by(files, role, path, d, j);
            assert(k == i) by {
                assert(held_by(files, role, path, d, k) && held_by(files, role, path, d, i));
            }
        }
    }
    if held_elsewhere(files, role, path, d) {
        let o = choose|o: Seq<char>|
            o != role && #[trigger] terms::lists(files, o) && holds(targets_at(files, o), path, d);
        publishing::role_listed(files, o);
        let i = choose|i: int| 0 <= i < names.len() && names[i] == o;
        assert(held_by(files, role, path, d, i));
    }
}

/// What becomes of all targets is what becomes of each.
proof fn fates_are(s: Sides, paths: Seq<Seq<char>>, ch: ChangeView, other: Seq<char>)
    requires
        status::fates(s, paths) is Ok,
        paths.no_duplicates(),
    ensures
        ({
            let f = status::fates(s, paths)->Ok_0;
            let from = paths.to_set().filter(
                |path: Seq<char>| status::fate(s, path) == Ok::<Fate, error::Fault>(Fate::From(other)),
            );
            let to = paths.to_set().filter(
                |path: Seq<char>| status::fate(s, path) == Ok::<Fate, error::Fault>(Fate::To(other)),
            );
            &&& f.changes.contains(ch) <==> exists|i: int|
                0 <= i < paths.len() && status::fate(s, #[trigger] paths[i]) == Ok::<
                    Fate,
                    error::Fault,
                >(Fate::Differs(ch))
            &&& status::occurrences(f.from, other) == from.len()
            &&& status::occurrences(f.to, other) == to.len()
            &&& forall|i: int| 0 <= i < paths.len() ==> status::fate(s, #[trigger] paths[i]) is Ok
        }),
    decreases paths.len(),
{
    let p = |path: Seq<char>| status::fate(s, path) == Ok::<Fate, error::Fault>(Fate::From(other));
    let q = |path: Seq<char>| status::fate(s, path) == Ok::<Fate, error::Fault>(Fate::To(other));
    if paths.len() > 0 {
        let rest = paths.drop_last();
        let n = paths.len() - 1;
        let last = paths[n];
        assert(rest.no_duplicates());
        fates_are(s, rest, ch, other);
        let f = status::fates(s, rest)->Ok_0;
        let g = status::fates(s, paths)->Ok_0;
        vstd::seq_lib::seq_to_set_is_finite(rest);
        assert forall|path: Seq<char>| #[trigger]
            paths.to_set().contains(path) <==> rest.to_set().contains(path) || path == last by {
            order::push_holds(rest, last, path);
            assert(rest.push(last) =~= paths);
        }
        assert(!rest.to_set().contains(last)) by {
            if rest.contains(last) {
                let i = choose|i: int| 0 <= i < rest.len() && rest[i] == last;
                assert(paths[i] == paths[n]);
            }
        }
        vstd::set_lib::lemma_set_subset_finite(rest.to_set(), rest.to_set().filter(p));
        vstd::set_lib::lemma_set_subset_finite(rest.to_set(), rest.to_set().filter(q));
        if p(last) {
            assert(paths.to_set().filter(p) =~= rest.to_set().filter(p).insert(last));
            assert(g.from.drop_last() =~= f.from);
        } else {
            assert(paths.to_set().filter(p) =~= rest.to_set().filter(p));
            if g.from.len() > f.from.len() {
                assert(g.from.drop_last() =~= f.from);
            }
        }
        if q(last) {
            assert(paths.to_set().filter(q) =~= rest.to_set().filter(q).insert(last));
            assert(g.to.drop_last() =~= f.to);
        } else {
            assert(paths.to_set().filter(q) =~= rest.to_set().filter(q));
            if g.to.len() > f.to.len() {
                assert(g.to.drop_last() =~= f.to);
            }
        }
        if status::fate(s, last)->Ok_0 is Differs {
            order::push_holds(f.changes, status::fate(s, last)->Ok_0->Differs_0, ch);
        }
        if f.changes.contains(ch) {
            let i = choose|i: int|
                0 <= i < rest.len() && status::fate(s, #[trigger] rest[i]) == Ok::<
                    Fate,
                    error::Fault,
                >(Fate::Differs(ch));
            assert(paths[i] == rest[i]);
        }
        if exists|i: int|
            0 <= i < paths.len() && status::fate(s, #[trigger] paths[i]) == Ok::<Fate, error::Fault>(
                Fate::Differs(ch),
            ) {
            let i = choose|i: int|
                0 <= i < paths.len() && status::fate(s, #[trigger] paths[i]) == Ok::<
                    Fate,
                    error::Fault,
                >(Fate::Differs(ch));
            if i < n {
                assert(rest[i] == paths[i]);
            }
        }
        assert forall|i: int| 0 <= i < paths.len() implies status::fate(
            s,
            #[trigger] paths[i],
        ) is Ok by {
            if i < n {
                assert(rest[i] == paths[i]);
            }
        }
    } else {
        assert(paths.to_set() =~= Set::empty());
        assert(paths.to_set().filter(p) =~= Set::empty());
        assert(paths.to_set().filter(q) =~= Set::empty());
    }
}

/// What occurs is in the sequence.
proof fn occurs(s: Seq<Seq<char>>, x: Seq<char>)
    ensures
        status::occurrences(s, x) > 0 <==> s.contains(x),
    decreases s.len(),
{
    if s.len() > 0 {
        occurs(s.drop_last(), x);
        order::push_holds(s.drop_last(), s.last(), x);
        assert(s.drop_last().push(s.last()) =~= s);
    }
}

/// The moves tell each role that occurs, and how often it does.
proof fn moves_are(roles: Seq<Seq<char>>, what: Seq<char>, ch: ChangeView)
    ensures
        status::moves(roles, what).contains(ch) <==> exists|other: Seq<char>|
            #![trigger status::occurrences(roles, other)]
            status::occurrences(roles, other) > 0 && ch == ChangeView::Other(
                counted(status::occurrences(roles, other)) + what + other,
            ),
{
    vstd::seq_lib::seq_to_set_is_finite(roles);
    strmap::listing_exists(roles.to_set());
    let names = strmap::listing(roles.to_set());
    let all = status::moves(roles, what);
    if all.contains(ch) {
        let i = choose|i: int| 0 <= i < all.len() && all[i] == ch;
        assert(names.to_set().contains(names[i]));
        assert(roles.to_set().contains(names[i]));
        occurs(roles, names[i]);
    }
    if exists|other: Seq<char>|
        #![trigger status::occurrences(roles, other)]
        status::occurrences(roles, other) > 0 && ch == ChangeView::Other(
            counted(status::occurrences(roles, other)) + what + other,
        ) {
        let other = choose|other: Seq<char>|
            #![trigger status::occurrences(roles, other)]
            status::occurrences(roles, other) > 0 && ch == ChangeView::Other(
                counted(status::occurrences(roles, other)) + what + other,
            );
        occurs(roles, other);
        assert(names.to_set().contains(other));
        let i = choose|i: int| 0 <= i < names.len() && names[i] == other;
        assert(all[i] == ch);
    }
}

/// The targets metadata of `role`, if there is any.
pub open spec fn listing_at(files: Files, role: Seq<char>) -> Option<TargetsView> {
    if terms::has(files, role) {
        Some((documents::targets_in(terms::bytes_of(files, role))->0).1)
    } else {
        None
    }
}

/// The two sides of the comparison of a role's targets.
spec fn sides(base: Files, head: Files, role: Seq<char>) -> Sides {
    Sides {
        role,
        was: targets_at(base, role),
        new: targets_at(head, role),
        base_index: status::index_of(base, repo::targets_roles_of(base))->Ok_0,
        head_index: status::index_of(head, repo::targets_roles_of(head))->Ok_0,
    }
}

/// What becomes of one target.
proof fn fate_is(
    base: Files,
    head: Files,
    role: Seq<char>,
    path: Seq<char>,
    ch: ChangeView,
    other: Seq<char>,
)
    requires
        base.dom().finite(),
        head.dom().finite(),
        status::index_of(base, repo::targets_roles_of(base)) is Ok,
        status::index_of(head, repo::targets_roles_of(head)) is Ok,
        status::fate(sides(base, head, role), path) is Ok,
    ensures
        ({
            let f = status::fate(sides(base, head, role), path)->Ok_0;
            &&& f == Fate::Differs(ch) <==> one_target_change(base, head, role, path, ch)
            &&& f == Fate::From(other) <==> came(base, head, role, path, other)
            &&& f == Fate::To(other) <==> went(base, head, role, path, other)
        }),
{
    let s = sides(base, head, role);
    if !s.was.dom().contains(path) && s.new.dom().contains(path) {
        first_holder(base, role, path, s.new[path], other);
        file_told(path, s.new[path], "added"@, ch);
    }
    if s.was.dom().contains(path) && !s.new.dom().contains(path) {
        first_holder(head, role, path, s.was[path], other);
    }
    if s.was.dom().contains(path) && s.new.dom().contains(path) {
        file_told(path, s.new[path], "changed"@, ch);
    }
}

/// The file of a target is told by its length, its digest and where it is stored.
proof fn file_told(path: Seq<char>, d: DescriptionView, kind: Seq<char>, ch: ChangeView)
    ensures
        status::file_of(path, d) matches Ok(file) ==> (ch == (ChangeView::Target {
            path,
            kind,
            file: Some(file),
        }) <==> tells_file(ch, path, kind, d)),
{
    if status::file_of(path, d) is Ok {
        let file = status::file_of(path, d)->Ok_0;
        publishing::targets_are_stored_by_digest(path, d, file.object);
        if tells_file(ch, path, kind, d) {
            let f = ch->Target_file->0;
            publishing::stored_in_one_place(path, f.sha256, f.object, file.object);
            assert(f == file);
        }
    }
}

/// No target that `role` lists otherwise than before is concealed, and no change of one is invented.
proof fn every_change_of_targets_is_listed(base: Files, head: Files, role: Seq<char>, ch: ChangeView)
    requires
        base.dom().finite(),
        head.dom().finite(),
        targets_at(base, role).dom().finite(),
        targets_at(head, role).dom().finite(),
        status::index_of(base, repo::targets_roles_of(base)) is Ok,
        status::index_of(head, repo::targets_roles_of(head)) is Ok,
        status::target_changes_of(sides(base, head, role)) is Ok,
    ensures
        status::target_changes_of(sides(base, head, role))->Ok_0.contains(ch) <==> targets_change(
            base,
            head,
            role,
            ch,
        ),
{
    let s = sides(base, head, role);
    let set = s.was.dom().union(s.new.dom());
    let paths = strmap::listing(set);
    strmap::listing_exists(set);
    assert(paths.no_duplicates()) by {
        assert forall|i: int, j: int| 0 <= i < paths.len() && 0 <= j < paths.len() && i != j implies
            paths[i] != paths[j] by {
            text::precedes_irreflexive(paths[i]);
            if i < j {
                assert(text::precedes(paths[i], paths[j]));
            } else {
                assert(text::precedes(paths[j], paths[i]));
            }
        }
    }
    let f = status::fates(s, paths)->Ok_0;
    fates_are(s, paths, ch, arbitrary());
    let here = " moved here unchanged from "@;
    let there = " moved unchanged to "@;
    let a = status::moves(f.from, here);
    let b = status::moves(f.to, there);
    signing::joined_holds(f.changes, a, ch);
    signing::joined_holds(f.changes + a, b, ch);
    moves_are(f.from, here, ch);
    moves_are(f.to, there, ch);
    assert forall|path: Seq<char>| set.contains(path) <==> exists|i: int|
        0 <= i < paths.len() && #[trigger] paths[i] == path by {
        assert(paths.to_set().contains(path) <==> paths.contains(path));
    }
    assert forall|path: Seq<char>| #[trigger] set.contains(path) implies status::fate(
        s,
        path,
    ) is Ok by {
        let i = choose|i: int| 0 <= i < paths.len() && #[trigger] paths[i] == path;
        assert(status::fate(s, paths[i]) is Ok);
    }
    assert(f.changes.contains(ch) <==> exists|path: Seq<char>| #[trigger]
        one_target_change(base, head, role, path, ch)) by {
        if f.changes.contains(ch) {
            let i = choose|i: int|
                0 <= i < paths.len() && status::fate(s, #[trigger] paths[i]) == Ok::<
                    Fate,
                    error::Fault,
                >(Fate::Differs(ch));
            fate_is(base, head, role, paths[i], ch, arbitrary());
        }
        if exists|path: Seq<char>| #[trigger] one_target_change(base, head, role, path, ch) {
            let path = choose|path: Seq<char>| #[trigger]
                one_target_change(base, head, role, path, ch);
            assert(set.contains(path));
            let i = choose|i: int| 0 <= i < paths.len() && #[trigger] paths[i] == path;
            fate_is(base, head, role, paths[i], ch, arbitrary());
        }
    }
    assert forall|other: Seq<char>|
        status::occurrences(f.from, other) == #[trigger] all_from(base, head, role, other).len() by {
        fates_are(s, paths, ch, other);
        let p = |path: Seq<char>|
            status::fate(s, path) == Ok::<Fate, error::Fault>(Fate::From(other));
        assert forall|path: Seq<char>| paths.to_set().filter(p).contains(path) <==> #[trigger]
            all_from(base, head, role, other).contains(path) by {
            if set.contains(path) {
                fate_is(base, head, role, path, ch, other);
            }
        }
        assert(paths.to_set().filter(p) =~= all_from(base, head, role, other));
    }
    assert forall|other: Seq<char>|
        status::occurrences(f.to, other) == #[trigger] all_to(base, head, role, other).len() by {
        fates_are(s, paths, ch, other);
        let p = |path: Seq<char>| status::fate(s, path) == Ok::<Fate, error::Fault>(Fate::To(other));
        assert forall|path: Seq<char>| paths.to_set().filter(p).contains(path) <==> #[trigger]
            all_to(base, head, role, other).contains(path) by {
            if set.contains(path) {
                fate_is(base, head, role, path, ch, other);
            }
        }
        assert(paths.to_set().filter(p) =~= all_to(base, head, role, other));
    }
    moved_listed(base, head, role, f.from, f.to, ch);
}

/// The moves are those of the targets that came and went.
proof fn moved_listed(
    base: Files,
    head: Files,
    role: Seq<char>,
    from: Seq<Seq<char>>,
    to: Seq<Seq<char>>,
    ch: ChangeView,
)
    requires
        forall|other: Seq<char>|
            status::occurrences(from, other) == #[trigger] all_from(base, head, role, other).len(),
        forall|other: Seq<char>|
            status::occurrences(to, other) == #[trigger] all_to(base, head, role, other).len(),
    ensures
        status::moves(from, " moved here unchanged from "@).contains(ch) <==> exists|
            other: Seq<char>,
        |
            #![trigger all_from(base, head, role, other)]
            all_from(base, head, role, other).len() > 0 && ch == ChangeView::Other(
                counted(all_from(base, head, role, other).len()) + " moved here unchanged from "@
                    + other,
            ),
        status::moves(to, " moved unchanged to "@).contains(ch) <==> exists|other: Seq<char>|
            #![trigger all_to(base, head, role, other)]
            all_to(base, head, role, other).len() > 0 && ch == ChangeView::Other(
                counted(all_to(base, head, role, other).len()) + " moved unchanged to "@ + other,
            ),
{
    let here = " moved here unchanged from "@;
    let there = " moved unchanged to "@;
    moves_are(from, here, ch);
    moves_are(to, there, ch);
    if status::moves(from, here).contains(ch) {
        let other = choose|other: Seq<char>|
            #![trigger status::occurrences(from, other)]
            status::occurrences(from, other) > 0 && ch == ChangeView::Other(
                counted(status::occurrences(from, other)) + here + other,
            );
        assert(all_from(base, head, role, other).len() > 0);
    }
    if status::moves(to, there).contains(ch) {
        let other = choose|other: Seq<char>|
            #![trigger status::occurrences(to, other)]
            status::occurrences(to, other) > 0 && ch == ChangeView::Other(
                counted(status::occurrences(to, other)) + there + other,
            );
        assert(all_to(base, head, role, other).len() > 0);
    }
}

/// Whether `ch` is a change that the event makes to `role`.
pub open spec fn change_in(c: ConfigView, base: Files, head: Files, role: Seq<char>, ch: ChangeView) -> bool {
    reporting::touched(base, head, role) && if role == "root"@ {
        root_change(c, base, head, ch)
    } else {
        delegations_change(c, listing_at(base, role), listing_at(head, role)->0, ch)
            || targets_change(base, head, role, ch)
    }
}

/// The changes of one role.
proof fn role_changes_hold(c: ConfigView, base: Files, head: Files, role: Seq<char>, ch: ChangeView)
    requires
        terms::proper(base),
        terms::proper(head),
        status::index_of(base, repo::targets_roles_of(base)) is Ok,
        status::index_of(head, repo::targets_roles_of(head)) is Ok,
        status::changes_if_any(
            c,
            base,
            head,
            role,
            status::index_of(base, repo::targets_roles_of(base))->Ok_0,
            status::index_of(head, repo::targets_roles_of(head))->Ok_0,
        ) is Ok,
        terms::has(head, role),
        !role.contains('/'),
    ensures
        status::changes_if_any(
            c,
            base,
            head,
            role,
            status::index_of(base, repo::targets_roles_of(base))->Ok_0,
            status::index_of(head, repo::targets_roles_of(head))->Ok_0,
        )->Ok_0.contains(ch) <==> change_in(c, base, head, role, ch),
{
    config::different_top_level();
    let bi = status::index_of(base, repo::targets_roles_of(base))->Ok_0;
    let hi = status::index_of(head, repo::targets_roles_of(head))->Ok_0;
    if reporting::touched(base, head, role) {
        if role == "root"@ {
            every_root_change_is_listed(c, base, head, bi, hi, ch);
        } else {
            let was = status::targets_if_any(base, role)->Ok_0;
            let new = (repo::targets_of(head, role)->Ok_0).1;
            assert(head.dom().contains(role + ".json"@));
            assert(terms::has(base, role) ==> base.dom().contains(role + ".json"@));
            assert(was == listing_at(base, role));
            assert(new == listing_at(head, role)->0);
            let a = status::delegations_before(was);
            let b = status::by_name(new.delegations.roles);
            let x = status::all_delegation_changes(c, a, b, strmap::listing(a.dom().union(b.dom())));
            assert(sides(base, head, role) == (Sides {
                role,
                was: status::targets_before(was),
                new: new.targets,
                base_index: bi,
                head_index: hi,
            }));
            let y = status::target_changes_of(sides(base, head, role))->Ok_0;
            signing::joined_holds(x, y, ch);
            every_delegation_change_is_listed(c, was, new, ch);
            every_change_of_targets_is_listed(base, head, role, ch);
        }
    } else {
        assert(repo::raw_of(base, role) == repo::raw_of(head, role));
    }
}

/// The status of an event lists every change that it makes to a role: of keys, thresholds, delegations
/// and targets. It lists no other.
pub proof fn the_status_conceals_no_change(
    c: ConfigView,
    base: Files,
    head: Files,
    i: int,
    ch: ChangeView,
)
    requires
        config::valid(c),
        terms::proper(base),
        terms::proper(head),
        status::status_of(c, base, head) is Ok,
        0 <= i < status::status_of(c, base, head)->Ok_0.len(),
    ensures
        ({
            let s = status::status_of(c, base, head)->Ok_0[i];
            s.changes.contains(ch) <==> change_in(c, base, head, s.role, ch)
        }),
{
    let s = status::status_of(c, base, head)->Ok_0[i];
    reporting::status_comes_from_role(c, base, head, i);
    reveal_strlit("root");
    role_changes_hold(c, base, head, s.role, ch);
}

} // verus!
