//! Which store a process talks to: `.mdkb/` or a namespace beneath it.
//!
//! A namespace is store-path separation, not a column. Everything a namespaced
//! process opens derives from `.mdkb/namespaces/<name>/` instead of `.mdkb/`,
//! so no read of the default store can see a namespaced entry: there is no
//! query to forget a filter in.
//!
//! Two ways in. `MDKB_NAMESPACE=<name>` is the explicit one. Without it, a
//! process that carries a test runner's marker is routed to the `test`
//! namespace unasked. `MDKB_NAMESPACE=default` opts a process back out.

use vstd::prelude::*;

use crate::text::{join_path, joined_path, same, trim, trimmed};

verus! {

/// Environment variable that names the namespace explicitly.
pub const ENV_VAR: &'static str = "MDKB_NAMESPACE";

/// Namespace a process under a test runner is routed to unasked.
pub const TEST_NAMESPACE: &'static str = "test";

/// The value that selects the default store even under a test runner.
pub const DEFAULT_NAMESPACE: &'static str = "default";

/// The longest name of a namespace.
pub const MAX_NAME: usize = 64;

/// Variables a test runner sets in every process it spawns. Each is the
/// runner's own contract: `node --test` sets `NODE_TEST_CONTEXT`, vitest
/// `VITEST`, jest `JEST_WORKER_ID`, pytest `PYTEST_CURRENT_TEST`.
pub const TEST_RUNNER_MARKERS: [&'static str; 4] = [
    "NODE_TEST_CONTEXT",
    "VITEST",
    "JEST_WORKER_ID",
    "PYTEST_CURRENT_TEST",
];

/// Whether a character may stand in a name.
pub open spec fn name_char(c: char) -> bool {
    ||| 'a' <= c <= 'z'
    ||| 'A' <= c <= 'Z'
    ||| '0' <= c <= '9'
    ||| c == '-'
    ||| c == '_'
}

/// Whether a text is a name: short enough, of the characters of a name alone,
/// and not led by a dash.
pub open spec fn well_formed(name: Seq<char>) -> bool {
    &&& name.len() <= MAX_NAME
    &&& forall|i: int| 0 <= i < name.len() ==> name_char(#[trigger] name[i])
    &&& name.len() > 0 ==> name[0] != '-'
}

/// What is said of a text that is no name.
pub open spec fn refusal(name: Seq<char>) -> Seq<char> {
    "invalid "@ + "MDKB_NAMESPACE"@ + " '"@ + name
        + "': use up to 64 characters from [A-Za-z0-9_-]"@
}

/// A value that may be missing, as text.
pub open spec fn option_view(value: Option<&str>) -> Option<Seq<char>> {
    match value {
        Some(value) => Some(value@),
        None => None,
    }
}

/// The namespace of a process, or why it has none: a name that is set wins over
/// the marker of a test runner, and nothing set leaves it to the marker. The
/// white space around a name is not part of it.
pub open spec fn resolved(explicit: Option<Seq<char>>, under_test_runner: bool) -> Result<
    Option<Seq<char>>,
    Seq<char>,
> {
    let name = match explicit {
        Some(name) => trimmed(name),
        None => Seq::empty(),
    };
    if name.len() == 0 {
        Ok(
            if under_test_runner {
                Some("test"@)
            } else {
                None
            },
        )
    } else if name == "default"@ {
        Ok(None)
    } else if well_formed(name) {
        Ok(Some(name))
    } else {
        Err(refusal(name))
    }
}

/// A namespace or a refusal, as text.
pub open spec fn result_view(outcome: Result<Option<String>, String>) -> Result<
    Option<Seq<char>>,
    Seq<char>,
> {
    match outcome {
        Ok(Some(name)) => Ok(Some(name@)),
        Ok(None) => Ok(None),
        Err(message) => Err(message@),
    }
}

/// A namespace is one path component under `.mdkb/namespaces/`. Anything else,
/// a separator, a dot, a leading dash, could walk out of it or collide with a
/// file the store owns.
fn is_well_formed(name: &str) -> (fine: bool)
    ensures
        fine == well_formed(name@),
{
    let n: usize = name.unicode_len();
    if n > MAX_NAME || (n > 0 && name.get_char(0) == '-') {
        return false;
    }
    let mut i: usize = 0;
    while i < n
        invariant
            i <= n,
            n == name@.len(),
            forall|k: int| 0 <= k < i ==> name_char(#[trigger] name@[k]),
        decreases n - i,
    {
        let c = name.get_char(i);
        let fine = ('a' <= c && c <= 'z') || ('A' <= c && c <= 'Z') || ('0' <= c && c <= '9') || c
            == '-' || c == '_';
        if !fine {
            assert(!name_char(name@[i as int]));
            return false;
        }
        i += 1;
    }
    true
}

/// The rule behind the active namespace, as a pure function over the two
/// inputs.
pub fn resolve(explicit: Option<&str>, under_test_runner: bool) -> (outcome: Result<
    Option<String>,
    String,
>)
    ensures
        result_view(outcome) == resolved(option_view(explicit), under_test_runner),
{
    let name = match explicit {
        Some(name) => trim(name),
        None => "",
    };
    proof {
        reveal_strlit("");
    }
    if name.is_empty() {
        assert(name@ =~= Seq::empty());
        return if under_test_runner {
            Ok(Some("test".to_owned()))
        } else {
            Ok(None)
        };
    }
    if same(name, "default") {
        return Ok(None);
    }
    if is_well_formed(name) {
        return Ok(Some(name.to_owned()));
    }
    let mut message = "invalid ".to_owned();
    message.append("MDKB_NAMESPACE");
    message.append(" '");
    message.append(name);
    message.append("': use up to 64 characters from [A-Za-z0-9_-]");
    Err(message)
}

/// Whether a process runs under a test runner, given how long the value of each
/// marker is, where it is set. A marker set to nothing is none.
pub fn under_test_runner(markers: &[Option<usize>]) -> (found: bool)
    ensures
        found == exists|i: int|
            0 <= i < markers@.len() && (#[trigger] markers@[i] matches Some(size) && size > 0),
{
    let mut i: usize = 0;
    while i < markers.len()
        invariant
            i <= markers@.len(),
            forall|k: int|
                0 <= k < i ==> !(#[trigger] markers@[k] matches Some(size) && size > 0),
        decreases markers@.len() - i,
    {
        if let Some(size) = markers[i] {
            if size > 0 {
                assert(markers@[i as int] matches Some(size) && size > 0);
                return true;
            }
        }
        i += 1;
    }
    false
}

/// The store directory of a repository: `.mdkb/` for the default store,
/// `.mdkb/namespaces/<name>/` otherwise.
pub open spec fn store_path(root: Seq<char>, namespace: Option<Seq<char>>) -> Seq<char> {
    let base = joined_path(root, ".mdkb"@);
    match namespace {
        None => base,
        Some(name) => joined_path(joined_path(base, "namespaces"@), name),
    }
}

/// The store directory for `root` with the namespace already resolved.
pub fn store_dir_for(root: &str, namespace: Option<&str>) -> (dir: String)
    ensures
        dir@ == store_path(root@, option_view(namespace)),
{
    let base = join_path(root, ".mdkb");
    match namespace {
        None => base,
        Some(name) => join_path(join_path(base.as_str(), "namespaces").as_str(), name),
    }
}

/// The store directory for `root` in the namespace that the two inputs select.
pub fn store_dir(root: &str, explicit: Option<&str>, under_test_runner: bool) -> (dir: Result<
    String,
    String,
>)
    ensures
        match (dir, resolved(option_view(explicit), under_test_runner)) {
            (Ok(dir), Ok(namespace)) => dir@ == store_path(root@, namespace),
            (Err(message), Err(reason)) => message@ == reason,
            _ => false,
        },
{
    match resolve(explicit, under_test_runner) {
        Ok(Some(name)) => Ok(store_dir_for(root, Some(name.as_str()))),
        Ok(None) => Ok(store_dir_for(root, None)),
        Err(message) => Err(message),
    }
}

/// A namespace is one path component: a name that is resolved is not empty, is
/// not `default`, and holds no separator and no dot.
pub proof fn a_namespace_is_one_component(explicit: Option<Seq<char>>, under_test_runner: bool)
    ensures
        resolved(explicit, under_test_runner) matches Ok(Some(name)) ==> {
            &&& name.len() > 0
            &&& well_formed(name)
            &&& name != "default"@
            &&& !name.contains('/')
            &&& !name.contains('\\')
            &&& !name.contains('.')
        },
{
    reveal_strlit("test");
    reveal_strlit("default");
    if let Ok(Some(name)) = resolved(explicit, under_test_runner) {
        assert("test"@ != "default"@) by {
            assert("test"@.len() != "default"@.len());
        }
        assert(well_formed(name));
        assert forall|c: char| name.contains(c) implies name_char(c) by {
            let i = choose|i: int| 0 <= i < name.len() && name[i] == c;
            assert(name_char(name[i]));
        }
    }
}

/// A namespaced store lies beneath the default one, by its name, so a read of
/// the default store never opens it.
pub proof fn a_namespace_lies_beneath_the_default_store(root: Seq<char>, name: Seq<char>)
    requires
        well_formed(name),
        name.len() > 0,
    ensures
        store_path(root, Some(name)) == store_path(root, None) + "/namespaces/"@ + name,
        store_path(root, Some(name)) != store_path(root, None),
{
    reveal_strlit(".mdkb");
    reveal_strlit("namespaces");
    reveal_strlit("/namespaces/");
    let base = joined_path(root, ".mdkb"@);
    assert(base.last() == ".mdkb"@.last());
    assert(base.last() == 'b');
    let all = joined_path(base, "namespaces"@);
    assert(all == base.push('/') + "namespaces"@);
    assert(all.last() == 's');
    assert(name_char(name[0]));
    assert(store_path(root, Some(name)) == all.push('/') + name);
    assert(base.push('/') + "namespaces"@ =~= base + seq!['/'] + "namespaces"@);
    assert("/namespaces/"@ =~= seq!['/'] + "namespaces"@ + seq!['/']);
    assert(all.push('/') + name =~= base + "/namespaces/"@ + name);
    assert(store_path(root, Some(name)).len() > base.len());
}

/// Two namespaces share no directory.
pub proof fn namespaces_stay_apart(root: Seq<char>, a: Seq<char>, b: Seq<char>)
    requires
        well_formed(a),
        well_formed(b),
        a.len() > 0,
        b.len() > 0,
        store_path(root, Some(a)) == store_path(root, Some(b)),
    ensures
        a == b,
{
    a_namespace_lies_beneath_the_default_store(root, a);
    a_namespace_lies_beneath_the_default_store(root, b);
    let head = store_path(root, None) + "/namespaces/"@;
    assert((head + a).skip(head.len() as int) =~= a);
    assert((head + b).skip(head.len() as int) =~= b);
}

/// How a namespace is chosen. Nothing set, or white space alone, leaves it to the
/// test runner's marker. `default` selects the default store whatever the marker
/// says. A name of up to 64 letters, digits, dashes and underscores that no dash
/// leads is taken whatever the marker says. Everything else is refused, and the
/// refusal names it.
pub proof fn how_a_namespace_is_chosen(explicit: Option<Seq<char>>, under_test_runner: bool)
    ensures
        ({
            let outcome = resolved(explicit, under_test_runner);
            let blank = explicit is None || trimmed(explicit->0).len() == 0;
            let name = trimmed(explicit->0);
            let fine = name.len() <= 64 && name[0] != '-' && (forall|i: int|
                0 <= i < name.len() ==> ('a' <= #[trigger] name[i] <= 'z') || ('A' <= name[i]
                    <= 'Z') || ('0' <= name[i] <= '9') || name[i] == '-' || name[i] == '_');
            &&& blank && under_test_runner ==> outcome == Ok::<Option<Seq<char>>, Seq<char>>(
                Some("test"@),
            )
            &&& blank && !under_test_runner ==> outcome == Ok::<Option<Seq<char>>, Seq<char>>(None)
            &&& !blank && name == "default"@ ==> outcome == Ok::<Option<Seq<char>>, Seq<char>>(None)
            &&& !blank && name != "default"@ && fine ==> outcome == Ok::<
                Option<Seq<char>>,
                Seq<char>,
            >(Some(name))
            &&& !blank && name != "default"@ && !fine ==> (outcome matches Err(message) && message
                == "invalid MDKB_NAMESPACE '"@ + name
                + "': use up to 64 characters from [A-Za-z0-9_-]"@)
        }),
{
    if explicit is Some && trimmed(explicit->0).len() > 0 {
        let name = trimmed(explicit->0);
        if well_formed(name) {
            assert forall|i: int| 0 <= i < name.len() implies ('a' <= #[trigger] name[i] <= 'z') || (
            'A' <= name[i] <= 'Z') || ('0' <= name[i] <= '9') || name[i] == '-' || name[i] == '_' by {
                assert(name_char(name[i]));
            }
        } else if name.len() <= MAX_NAME && name[0] != '-' {
            let i = choose|i: int| 0 <= i < name.len() && !name_char(#[trigger] name[i]);
            assert(!(('a' <= name[i] <= 'z') || ('A' <= name[i] <= 'Z') || ('0' <= name[i] <= '9')
                || name[i] == '-' || name[i] == '_'));
        }
        reveal_strlit("invalid ");
        reveal_strlit("MDKB_NAMESPACE");
        reveal_strlit(" '");
        reveal_strlit("invalid MDKB_NAMESPACE '");
        assert("invalid "@ + "MDKB_NAMESPACE"@ + " '"@ =~= "invalid MDKB_NAMESPACE '"@);
    }
}

/// The default store of a repository is its `.mdkb` directory.
pub proof fn the_default_store_lies_in_the_root(root: Seq<char>)
    requires
        root.len() > 0,
        root.last() != '/',
    ensures
        store_path(root, None) == root + "/.mdkb"@,
{
    reveal_strlit("/.mdkb");
    reveal_strlit(".mdkb");
    assert(root.push('/') + ".mdkb"@ =~= root + "/.mdkb"@);
}

} // verus!
