//! Which artifacts look risky, and which directories a scan skips.
use vstd::prelude::*;
use vstd::string::*;
use crate::text::{
    begins_with, chars_of, contains, ends_with, finishes_with, lower_char, lower_seq, occurs_in, same_chars,
    starts_with, to_ascii_lower, views,
};

verus! {

/// Flag for files that look like keys, tokens, credentials or other secrets.
pub const PRIVATE_FLAG: &'static str = "possible_private_or_secret_file";

/// Flag for caches, scratch space and local databases.
pub const SCRATCH_FLAG: &'static str = "scratch_or_cache_artifact";

/// Flag for files that a local machine or tool generated.
pub const GENERATED_FLAG: &'static str = "generated_or_local_machine_artifact";

/// The pieces of `s` between occurrences of `sep`, in order; `n` separators
/// give `n + 1` pieces, some of which may be empty.
pub open spec fn split_on(s: Seq<char>, sep: char) -> Seq<Seq<char>>
    decreases s.len(),
{
    if s.len() == 0 {
        seq![Seq::empty()]
    } else {
        let init = split_on(s.drop_last(), sep);
        if s.last() == sep {
            init.push(Seq::empty())
        } else {
            init.update(init.len() - 1, init.last().push(s.last()))
        }
    }
}

pub proof fn lemma_split_on_nonempty(s: Seq<char>, sep: char)
    ensures
        split_on(s, sep).len() >= 1,
    decreases s.len(),
{
    if s.len() > 0 {
        lemma_split_on_nonempty(s.drop_last(), sep);
    }
}

/// A path segment that names something: not empty and not `.`.
pub open spec fn is_named(seg: Seq<char>) -> bool {
    !(seg.len() == 0 || (seg.len() == 1 && seg[0] == '.'))
}

/// The segment `..`.
pub open spec fn is_parent(seg: Seq<char>) -> bool {
    seg.len() == 2 && seg[0] == '.' && seg[1] == '.'
}

/// The last segment that names something.
pub open spec fn last_named(segs: Seq<Seq<char>>) -> Option<Seq<char>>
    decreases segs.len(),
{
    if segs.len() == 0 {
        None
    } else if is_named(segs.last()) {
        Some(segs.last())
    } else {
        last_named(segs.drop_last())
    }
}

/// The final component of a `/`-separated path, as `Path::file_name` gives
/// it: empty segments and `.` segments are not components, and there is no
/// file name when the path has no component or ends in `..`.
pub open spec fn file_name_of(path: Seq<char>) -> Option<Seq<char>> {
    match last_named(split_on(path, '/')) {
        Some(seg) => if is_parent(seg) {
            None
        } else {
            Some(seg)
        },
        None => None,
    }
}

fn is_named_segment(seg: &Vec<char>) -> (r: bool)
    ensures
        r == is_named(seg@),
{
    !(seg.len() == 0 || (seg.len() == 1 && seg[0] == '.'))
}

/// The final component of a path (see `file_name_of`).
pub fn file_name(path: &Vec<char>) -> (r: Option<Vec<char>>)
    ensures
        match r {
            Some(n) => file_name_of(path@) == Some(n@),
            None => file_name_of(path@) is None,
        },
{
    let mut cur: Vec<char> = Vec::new();
    let mut last: Option<Vec<char>> = None;
    let ghost mut done: Seq<Seq<char>> = Seq::empty();
    proof {
        assert(path@.take(0) =~= Seq::<char>::empty());
        assert(done.push(cur@) =~= split_on(path@.take(0), '/'));
    }
    for i in 0..path.len()
        invariant
            done.push(cur@) == split_on(path@.take(i as int), '/'),
            match last {
                Some(n) => last_named(done) == Some(n@),
                None => last_named(done) is None,
            },
    {
        let ghost pre = path@.take(i as int);
        proof {
            assert(path@.take(i + 1).drop_last() =~= pre);
            assert(path@.take(i + 1).last() == path@[i as int]);
            lemma_split_on_nonempty(pre, '/');
        }
        if path[i] == '/' {
            proof {
                assert(done.push(cur@).push(Seq::empty()).drop_last() =~= done.push(cur@));
                assert(done.push(cur@).drop_last() =~= done);
                done = done.push(cur@);
            }
            if is_named_segment(&cur) {
                last = Some(cur);
            }
            cur = Vec::new();
            assert(done.push(cur@) =~= split_on(path@.take(i + 1), '/'));
        } else {
            let ghost old_cur = cur@;
            cur.push(path[i]);
            assert(done.push(cur@) =~= done.push(old_cur).update(done.len() as int, old_cur.push(path@[i as int])));
        }
    }
    assert(path@.take(path.len() as int) =~= path@);
    assert(done.push(cur@).drop_last() =~= done);
    if is_named_segment(&cur) {
        last = Some(cur);
    }
    match last {
        Some(n) => {
            if n.len() == 2 && n[0] == '.' && n[1] == '.' {
                None
            } else {
                Some(n)
            }
        },
        None => None,
    }
}

/// The lower-cased file name of a path, or nothing when it has none.
pub open spec fn lower_file_name(path: Seq<char>) -> Seq<char> {
    match file_name_of(path) {
        Some(n) => lower_seq(n),
        None => Seq::empty(),
    }
}

/// The path looks like it holds a key, a token, a credential or another secret.
pub open spec fn looks_private(path: Seq<char>) -> bool {
    let lower = lower_seq(path);
    let name = lower_file_name(path);
    ||| name == ".env"@
    ||| begins_with(name, ".env."@)
    ||| finishes_with(name, ".pem"@)
    ||| finishes_with(name, ".key"@)
    ||| finishes_with(name, ".p12"@)
    ||| finishes_with(name, ".pfx"@)
    ||| finishes_with(name, ".crt"@)
    ||| name == "id_rsa"@
    ||| name == "id_dsa"@
    ||| occurs_in(name, "secret"@)
    ||| occurs_in(name, "token"@)
    ||| occurs_in(name, "credential"@)
    ||| occurs_in(lower, "private"@)
}

/// The path looks like a cache, scratch space or a local database.
pub open spec fn looks_scratch(path: Seq<char>) -> bool {
    let lower = lower_seq(path);
    let name = lower_file_name(path);
    ||| occurs_in(lower, "cache"@)
    ||| occurs_in(lower, "/tmp/"@)
    ||| occurs_in(lower, "scratch"@)
    ||| finishes_with(name, ".sqlite"@)
    ||| finishes_with(name, ".db"@)
}

/// The path looks like something a local machine or tool generated.
pub open spec fn looks_generated(path: Seq<char>) -> bool {
    let name = lower_file_name(path);
    name == ".ds_store"@ || finishes_with(name, ".pyc"@)
}

/// The risk flags of a relative artifact path, in their fixed order.
pub open spec fn risk_flags(path: Seq<char>) -> Seq<Seq<char>> {
    (if looks_private(path) { seq![PRIVATE_FLAG@] } else { Seq::empty() })
        + (if looks_scratch(path) { seq![SCRATCH_FLAG@] } else { Seq::empty() })
        + (if looks_generated(path) { seq![GENERATED_FLAG@] } else { Seq::empty() })
}

fn name_is(name: &Vec<char>, lit: &str) -> (r: bool)
    ensures
        r == (name@ == lit@),
{
    let v = chars_of(lit);
    same_chars(name, &v)
}

fn name_starts(name: &Vec<char>, lit: &str) -> (r: bool)
    ensures
        r == begins_with(name@, lit@),
{
    let v = chars_of(lit);
    starts_with(name, &v)
}

fn name_ends(name: &Vec<char>, lit: &str) -> (r: bool)
    ensures
        r == finishes_with(name@, lit@),
{
    let v = chars_of(lit);
    ends_with(name, &v)
}

fn name_has(name: &Vec<char>, lit: &str) -> (r: bool)
    ensures
        r == occurs_in(name@, lit@),
{
    let v = chars_of(lit);
    contains(name, &v)
}

/// The risk flags of a relative artifact path.
pub fn risk_flags_for(relative_path: &str) -> (flags: Vec<String>)
    ensures
        views(flags@) == risk_flags(relative_path@),
{
    let path = chars_of(relative_path);
    let lower = to_ascii_lower(&path);
    let name = match file_name(&path) {
        Some(n) => to_ascii_lower(&n),
        None => Vec::new(),
    };
    assert(name@ == lower_file_name(path@));
    let private = name_is(&name, ".env") || name_starts(&name, ".env.") || name_ends(&name, ".pem")
        || name_ends(&name, ".key") || name_ends(&name, ".p12") || name_ends(&name, ".pfx")
        || name_ends(&name, ".crt") || name_is(&name, "id_rsa") || name_is(&name, "id_dsa")
        || name_has(&name, "secret") || name_has(&name, "token") || name_has(&name, "credential")
        || name_has(&lower, "private");
    let scratch = name_has(&lower, "cache") || name_has(&lower, "/tmp/") || name_has(
        &lower,
        "scratch",
    ) || name_ends(&name, ".sqlite") || name_ends(&name, ".db");
    let generated = name_is(&name, ".ds_store") || name_ends(&name, ".pyc");
    let mut flags: Vec<String> = Vec::new();
    if private {
        flags.push(String::from_str(PRIVATE_FLAG));
    }
    if scratch {
        flags.push(String::from_str(SCRATCH_FLAG));
    }
    if generated {
        flags.push(String::from_str(GENERATED_FLAG));
    }
    assert(views(flags@) =~= risk_flags(relative_path@));
    flags
}

proof fn lemma_lower_twice(s: Seq<char>)
    ensures
        lower_seq(lower_seq(s)) == lower_seq(s),
{
    assert(lower_seq(lower_seq(s)) =~= lower_seq(s));
}

proof fn lemma_split_lower(s: Seq<char>)
    ensures
        split_on(lower_seq(s), '/') == split_on(s, '/').map_values(|seg: Seq<char>| lower_seq(seg)),
    decreases s.len(),
{
    let f = |seg: Seq<char>| lower_seq(seg);
    assert(lower_seq(Seq::<char>::empty()) =~= Seq::<char>::empty());
    if s.len() == 0 {
        assert(lower_seq(s) =~= Seq::<char>::empty());
        assert(split_on(s, '/').map_values(f) =~= seq![Seq::<char>::empty()]);
    } else {
        let ls = lower_seq(s);
        assert(ls.drop_last() =~= lower_seq(s.drop_last()));
        assert(ls.last() == lower_char(s.last()));
        lemma_split_lower(s.drop_last());
        lemma_split_on_nonempty(s.drop_last(), '/');
        let init = split_on(s.drop_last(), '/');
        if s.last() == '/' {
            assert(split_on(s, '/').map_values(f) =~= init.map_values(f).push(Seq::empty()));
        } else {
            assert(lower_seq(init.last().push(s.last())) =~= lower_seq(init.last()).push(lower_char(s.last())));
            assert(split_on(s, '/').map_values(f) =~= init.map_values(f).update(
                init.len() - 1,
                init.map_values(f).last().push(ls.last()),
            ));
        }
    }
}

proof fn lemma_last_named_lower(segs: Seq<Seq<char>>)
    ensures
        last_named(segs.map_values(|seg: Seq<char>| lower_seq(seg))) == match last_named(segs) {
            Some(n) => Some(lower_seq(n)),
            None => None,
        },
    decreases segs.len(),
{
    let f = |seg: Seq<char>| lower_seq(seg);
    if segs.len() > 0 {
        let m = segs.map_values(f);
        assert(m.drop_last() =~= segs.drop_last().map_values(f));
        let l = segs.last();
        assert(m.last() == lower_seq(l));
        assert(is_named(lower_seq(l)) == is_named(l)) by {
            if l.len() == 1 {
                assert(lower_seq(l)[0] == lower_char(l[0]));
            }
        }
        lemma_last_named_lower(segs.drop_last());
    }
}

/// Case does not matter to the file name: the file name of the lower-cased
/// path is the lower-cased file name.
proof fn lemma_file_name_lower(p: Seq<char>)
    ensures
        file_name_of(lower_seq(p)) == match file_name_of(p) {
            Some(n) => Some(lower_seq(n)),
            None => None,
        },
{
    lemma_split_lower(p);
    lemma_last_named_lower(split_on(p, '/'));
    if let Some(seg) = last_named(split_on(p, '/')) {
        assert(is_parent(lower_seq(seg)) == is_parent(seg)) by {
            if seg.len() == 2 {
                assert(lower_seq(seg)[0] == lower_char(seg[0]));
                assert(lower_seq(seg)[1] == lower_char(seg[1]));
            }
        }
    }
}

/// Risk detection ignores letter case: a path and its lower-cased form get
/// the same flags.
pub proof fn lemma_risk_flags_ignore_case(path: Seq<char>)
    ensures
        risk_flags(lower_seq(path)) == risk_flags(path),
{
    lemma_lower_twice(path);
    lemma_file_name_lower(path);
    if let Some(n) = file_name_of(path) {
        lemma_lower_twice(n);
    }
    assert(lower_file_name(lower_seq(path)) == lower_file_name(path));
}

/// Directory names that a scan never descends into.
pub open spec fn is_skipped_dir_name(name: Seq<char>) -> bool {
    ||| name == ".git"@
    ||| name == "target"@
    ||| name == "node_modules"@
    ||| name == "__pycache__"@
    ||| name == ".next"@
}

/// Whether a directory walk takes in an entry: every entry that is not a
/// directory, and every directory whose name is not one of the skipped ones.
pub fn should_scan_entry(is_dir: bool, name: &str) -> (r: bool)
    ensures
        r == (!is_dir || !is_skipped_dir_name(name@)),
        !r ==> is_dir && (name@ == ".git"@ || name@ == "target"@ || name@ == "node_modules"@
            || name@ == "__pycache__"@ || name@ == ".next"@),
        is_dir && (name@ == ".git"@ || name@ == "target"@ || name@ == "node_modules"@ || name@
            == "__pycache__"@ || name@ == ".next"@) ==> !r,
{
    if !is_dir {
        return true;
    }
    let n = chars_of(name);
    !(name_is(&n, ".git") || name_is(&n, "target") || name_is(&n, "node_modules") || name_is(
        &n,
        "__pycache__",
    ) || name_is(&n, ".next"))
}

/// A walk leaves out exactly the directories named `.git`, `target`,
/// `node_modules`, `__pycache__` and `.next`: every file, and every directory
/// with any other name, is taken in.
pub proof fn lemma_only_listed_directories_skipped(name: Seq<char>)
    ensures
        is_skipped_dir_name(name) <==> (name == ".git"@ || name == "target"@ || name
            == "node_modules"@ || name == "__pycache__"@ || name == ".next"@),
{
}

/// Any path whose lower-cased text holds `scratch`, `cache` or `/tmp/`
/// anywhere, directories included, is flagged as scratch or cache; any whose
/// lower-cased text holds `private` anywhere is flagged as possibly private.
pub proof fn lemma_whole_path_patterns_flagged(path: Seq<char>)
    ensures
        occurs_in(lower_seq(path), "scratch"@) ==> risk_flags(path).contains(SCRATCH_FLAG@),
        occurs_in(lower_seq(path), "cache"@) ==> risk_flags(path).contains(SCRATCH_FLAG@),
        occurs_in(lower_seq(path), "/tmp/"@) ==> risk_flags(path).contains(SCRATCH_FLAG@),
        occurs_in(lower_seq(path), "private"@) ==> risk_flags(path).contains(PRIVATE_FLAG@),
{
    let f = risk_flags(path);
    let p = if looks_private(path) { seq![PRIVATE_FLAG@] } else { Seq::<Seq<char>>::empty() };
    let sc = if looks_scratch(path) { seq![SCRATCH_FLAG@] } else { Seq::<Seq<char>>::empty() };
    let g = if looks_generated(path) { seq![GENERATED_FLAG@] } else { Seq::<Seq<char>>::empty() };
    assert(f == p + sc + g);
    if looks_scratch(path) {
        assert(f[p.len() as int] == SCRATCH_FLAG@);
    }
    if looks_private(path) {
        assert(f[0] == PRIVATE_FLAG@);
    }
}

/// Flags that go by the file name, whatever its letter case: `.env`,
/// `.env.*`, keys and certificates (`.pem`, `.key`, `.p12`, `.pfx`, `.crt`),
/// `id_rsa`, `id_dsa`, and names holding `secret`, `token` or `credential` are
/// flagged as possibly private; `.sqlite` and `.db` files as scratch or
/// cache; `.DS_Store` and `.pyc` files as generated.
pub proof fn lemma_file_name_patterns_flagged(path: Seq<char>)
    ensures
        ({
            let name = lower_file_name(path);
            &&& (name == ".env"@ || begins_with(name, ".env."@) || finishes_with(name, ".pem"@)
                || finishes_with(name, ".key"@) || finishes_with(name, ".p12"@) || finishes_with(
                name,
                ".pfx"@,
            ) || finishes_with(name, ".crt"@) || name == "id_rsa"@ || name == "id_dsa"@
                || occurs_in(name, "secret"@) || occurs_in(name, "token"@) || occurs_in(
                name,
                "credential"@,
            )) ==> risk_flags(path).contains(PRIVATE_FLAG@)
            &&& (finishes_with(name, ".sqlite"@) || finishes_with(name, ".db"@)) ==> risk_flags(
                path,
            ).contains(SCRATCH_FLAG@)
            &&& (name == ".ds_store"@ || finishes_with(name, ".pyc"@)) ==> risk_flags(
                path,
            ).contains(GENERATED_FLAG@)
        }),
{
    let f = risk_flags(path);
    let p = if looks_private(path) { seq![PRIVATE_FLAG@] } else { Seq::<Seq<char>>::empty() };
    let sc = if looks_scratch(path) { seq![SCRATCH_FLAG@] } else { Seq::<Seq<char>>::empty() };
    let g = if looks_generated(path) { seq![GENERATED_FLAG@] } else { Seq::<Seq<char>>::empty() };
    assert(f == p + sc + g);
    if looks_private(path) {
        assert(f[0] == PRIVATE_FLAG@);
    }
    if looks_scratch(path) {
        assert(f[p.len() as int] == SCRATCH_FLAG@);
    }
    if looks_generated(path) {
        assert(f[(p.len() + sc.len()) as int] == GENERATED_FLAG@);
    }
}

/// The flags of a path are each one of the three flags, in the fixed order
/// private, scratch, generated, without repeats.
pub proof fn lemma_flags_in_fixed_order(path: Seq<char>)
    ensures
        risk_flags(path).len() <= 3,
        forall|i: int|
            0 <= i < risk_flags(path).len() ==> (#[trigger] risk_flags(path)[i] == PRIVATE_FLAG@
                || risk_flags(path)[i] == SCRATCH_FLAG@ || risk_flags(path)[i] == GENERATED_FLAG@),
        risk_flags(path).len() > 0 ==> (looks_private(path) || looks_scratch(path)
            || looks_generated(path)),
{
}

} // verus!
