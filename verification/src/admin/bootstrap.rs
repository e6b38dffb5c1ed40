//! Bootstrap blueprints: the defaults of a blueprint customer, the blank
//! blueprint written by `init-blueprint`, and how an existing entity is found
//! again by name (which makes applying a blueprint idempotent).

use vstd::prelude::*;
use crate::text::{str_eq, trim_ws, trimmed, eq_ignore_ascii_case, eq_ignore_ascii_case_spec};

verus! {

pub fn default_country() -> (r: String)
    ensures
        r@ == "US"@,
{
    String::from_str("US")
}

pub fn default_currency() -> (r: String)
    ensures
        r@ == "USD"@,
{
    String::from_str("USD")
}

pub fn default_timezone() -> (r: String)
    ensures
        r@ == "America/Chicago"@,
{
    String::from_str("America/Chicago")
}

/// Index of the first name equal to `name`: an entity that already exists is
/// reused rather than created again.
pub fn find_by_name(names: &[String], name: &str) -> (r: Option<usize>)
    ensures
        match r {
            Some(i) => i < names@.len() && names@[i as int]@ == name@ && forall|k: int|
                0 <= k < i ==> (#[trigger] names@[k])@ != name@,
            None => forall|k: int| 0 <= k < names@.len() ==> (#[trigger] names@[k])@ != name@,
        },
{
    let n = names.len();
    let mut i: usize = 0;
    while i < n
        invariant
            n == names@.len(),
            i <= n,
            forall|k: int| 0 <= k < i ==> (#[trigger] names@[k])@ != name@,
        decreases n - i,
    {
        if str_eq(names[i].as_str(), name) {
            return Some(i);
        }
        i = i + 1;
    }
    None
}

/// A `[y/N]` question of the bootstrap wizard is answered yes by `y` or `Y`,
/// white space around it ignored.
pub fn answers_yes(answer: &str) -> (r: bool)
    ensures
        r == eq_ignore_ascii_case_spec(trimmed(answer@), "y"@),
{
    eq_ignore_ascii_case(trim_ws(answer), "y")
}

/// The blank blueprint, one line per string, joined with newlines.
pub open spec fn blueprint_lines() -> Seq<Seq<char>> {
    seq![
        "# Kimai bootstrap blueprint"@,
        "# Run with: aw-kimai-admin bootstrap run --from-file bootstrap.toml"@,
        ""@,
        "[[customers]]"@,
        "name     = \"Acme Corp\""@,
        "country  = \"US\""@,
        "currency = \"USD\""@,
        "timezone = \"America/Chicago\""@,
        "email    = \"billing@acme.example\""@,
        "budget   = 500.0"@,
        ""@,
        "  [[customers.projects]]"@,
        "  name   = \"Website Redesign\""@,
        "  budget = 200.0"@,
        "  start  = \"2026-01-01\""@,
        "  end    = \"2026-06-30\""@,
        ""@,
        "    [[customers.projects.activities]]"@,
        "    name  = \"Frontend development\""@,
        ""@,
        "    [[customers.projects.activities]]"@,
        "    name  = \"Backend development\""@,
        ""@,
        "    [[customers.projects.activities]]"@,
        "    name  = \"Code review\""@,
        ""@,
        "  [[customers.projects]]"@,
        "  name   = \"Mobile App\""@,
        "  budget = 300.0"@,
        ""@,
        "    [[customers.projects.activities]]"@,
        "    name = \"iOS development\""@,
        ""@,
        "    [[customers.projects.activities]]"@,
        "    name = \"Android development\""@,
        ""@,
        "    [[customers.projects.activities]]"@,
        "    name = \"QA and Testing\""@,
        ""@,
    ]
}

/// Lines joined by `"\n"`.
pub open spec fn join_lines(p: Seq<Seq<char>>) -> Seq<char>
    decreases p.len(),
{
    if p.len() == 0 {
        seq![]
    } else if p.len() == 1 {
        p[0]
    } else {
        join_lines(p.drop_last()) + "\n"@ + p.last()
    }
}

fn blueprint_line_strs() -> (r: Vec<&'static str>)
    ensures
        r@.len() == blueprint_lines().len(),
        forall|i: int| 0 <= i < r@.len() ==> (#[trigger] r@[i])@ == blueprint_lines()[i],
{
    let v: Vec<&'static str> = vec![
        "# Kimai bootstrap blueprint",
        "# Run with: aw-kimai-admin bootstrap run --from-file bootstrap.toml",
        "",
        "[[customers]]",
        "name     = \"Acme Corp\"",
        "country  = \"US\"",
        "currency = \"USD\"",
        "timezone = \"America/Chicago\"",
        "email    = \"billing@acme.example\"",
        "budget   = 500.0",
        "",
        "  [[customers.projects]]",
        "  name   = \"Website Redesign\"",
        "  budget = 200.0",
        "  start  = \"2026-01-01\"",
        "  end    = \"2026-06-30\"",
        "",
        "    [[customers.projects.activities]]",
        "    name  = \"Frontend development\"",
        "",
        "    [[customers.projects.activities]]",
        "    name  = \"Backend development\"",
        "",
        "    [[customers.projects.activities]]",
        "    name  = \"Code review\"",
        "",
        "  [[customers.projects]]",
        "  name   = \"Mobile App\"",
        "  budget = 300.0",
        "",
        "    [[customers.projects.activities]]",
        "    name = \"iOS development\"",
        "",
        "    [[customers.projects.activities]]",
        "    name = \"Android development\"",
        "",
        "    [[customers.projects.activities]]",
        "    name = \"QA and Testing\"",
        "",
    ];
    assert(v@.len() == blueprint_lines().len());
    v
}

/// The blank blueprint `init-blueprint` writes: a sample customer with two
/// projects and their activities.
pub fn blank_blueprint() -> (r: String)
    ensures
        r@ == join_lines(blueprint_lines()),
{
    let lines = blueprint_line_strs();
    let ghost p = blueprint_lines();
    let n = lines.len();
    let mut s = String::new();
    let mut i: usize = 0;
    while i < n
        invariant
            n == lines@.len(),
            p == blueprint_lines(),
            n == p.len(),
            forall|k: int| 0 <= k < lines@.len() ==> (#[trigger] lines@[k])@ == p[k],
            i <= n,
            s@ == join_lines(p.take(i as int)),
        decreases n - i,
    {
        if i > 0 {
            s.append("\n");
        }
        s.append(lines[i]);
        assert(p.take(i + 1).drop_last() =~= p.take(i as int));
        if i == 0 {
            assert(s@ =~= p[0]);
        }
        i = i + 1;
    }
    assert(p.take(n as int) =~= p);
    s
}

} // verus!
