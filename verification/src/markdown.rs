//! The human-readable Markdown form of a packet.
use vstd::prelude::*;
use vstd::string::*;
use crate::packet::{ArtifactRecord, ArtifactRecordView, EvidencePacket, EvidencePacketView, record_views};
use crate::text::{begins_with, chars_of, join, join_strings, occurs_at, occurs_in, push_char, views};

verus! {

/// What one character becomes in a Markdown table cell: backslash, pipe and
/// backtick are escaped with a backslash, line breaks become a space.
pub open spec fn escape_char(c: char) -> Seq<char> {
    if c == '\\' {
        seq!['\\', '\\']
    } else if c == '|' {
        seq!['\\', '|']
    } else if c == '`' {
        seq!['\\', '`']
    } else if c == '\n' || c == '\r' {
        seq![' ']
    } else {
        seq![c]
    }
}

/// A text made safe for a Markdown table cell, character by character.
pub open spec fn escape_cell(s: Seq<char>) -> Seq<char>
    decreases s.len(),
{
    if s.len() == 0 {
        Seq::empty()
    } else {
        escape_cell(s.drop_last()) + escape_char(s.last())
    }
}

/// An escaped cell cannot break its table: it holds no line break, and every
/// pipe and every backtick in it is preceded by a backslash.
pub proof fn lemma_escaped_cell_is_safe(s: Seq<char>)
    ensures
        forall|i: int|
            0 <= i < escape_cell(s).len() ==> #[trigger] escape_cell(s)[i] != '\n'
                && escape_cell(s)[i] != '\r',
        forall|i: int|
            0 <= i < escape_cell(s).len() && #[trigger] escape_cell(s)[i] == '|' ==> i > 0
                && escape_cell(s)[i - 1] == '\\',
        forall|i: int|
            0 <= i < escape_cell(s).len() && #[trigger] escape_cell(s)[i] == '`' ==> i > 0
                && escape_cell(s)[i - 1] == '\\',
    decreases s.len(),
{
    if s.len() > 0 {
        let init = escape_cell(s.drop_last());
        let tail = escape_char(s.last());
        lemma_escaped_cell_is_safe(s.drop_last());
        let e = escape_cell(s);
        assert(e == init + tail);
        assert forall|i: int| 0 <= i < e.len() implies #[trigger] e[i] != '\n' && e[i] != '\r' by {
            if i < init.len() {
                assert(e[i] == init[i]);
            } else {
                assert(e[i] == tail[i - init.len()]);
            }
        }
        assert forall|i: int| 0 <= i < e.len() && #[trigger] e[i] == '|' implies i > 0 && e[i - 1] == '\\' by {
            if i < init.len() {
                assert(e[i] == init[i]);
                assert(e[i - 1] == init[i - 1]);
            } else {
                assert(e[i] == tail[i - init.len()]);
                if i - init.len() == 1 {
                    assert(e[i - 1] == tail[0]);
                }
            }
        }
        assert forall|i: int| 0 <= i < e.len() && #[trigger] e[i] == '`' implies i > 0 && e[i - 1] == '\\' by {
            if i < init.len() {
                assert(e[i] == init[i]);
                assert(e[i - 1] == init[i - 1]);
            } else {
                assert(e[i] == tail[i - init.len()]);
                if i - init.len() == 1 {
                    assert(e[i - 1] == tail[0]);
                }
            }
        }
    }
}

/// Reads an escaped cell back: a backslash stands for the character after it.
pub open spec fn unescape(s: Seq<char>) -> Seq<char>
    decreases s.len(),
{
    if s.len() == 0 {
        Seq::empty()
    } else if s[0] == '\\' && s.len() >= 2 {
        seq![s[1]] + unescape(s.skip(2))
    } else {
        seq![s[0]] + unescape(s.drop_first())
    }
}

/// The text with each line break turned into a space.
pub open spec fn breaks_as_spaces(s: Seq<char>) -> Seq<char> {
    s.map_values(|c: char| if c == '\n' || c == '\r' { ' ' } else { c })
}

proof fn lemma_escape_concat(a: Seq<char>, b: Seq<char>)
    ensures
        escape_cell(a + b) == escape_cell(a) + escape_cell(b),
    decreases b.len(),
{
    if b.len() == 0 {
        assert(a + b =~= a);
        assert(escape_cell(a) + escape_cell(b) =~= escape_cell(a));
    } else {
        assert((a + b).drop_last() =~= a + b.drop_last());
        assert((a + b).last() == b.last());
        lemma_escape_concat(a, b.drop_last());
        assert(escape_cell(a + b) =~= escape_cell(a) + escape_cell(b));
    }
}

/// Escaping loses nothing but line breaks: reading an escaped cell back
/// gives the text again, with each line break turned into a space.
#[verifier::spinoff_prover]
#[verifier::rlimit(40)]
pub proof fn lemma_escape_reads_back(s: Seq<char>)
    ensures
        unescape(escape_cell(s)) == breaks_as_spaces(s),
    decreases s.len(),
{
    if s.len() == 0 {
        assert(breaks_as_spaces(s) =~= Seq::<char>::empty());
    } else {
        let c = s[0];
        let rest = s.drop_first();
        assert(s =~= seq![c] + rest);
        lemma_escape_concat(seq![c], rest);
        assert(seq![c].drop_last() =~= Seq::<char>::empty());
        assert(seq![c].last() == c);
        assert(escape_cell(Seq::<char>::empty()) == Seq::<char>::empty());
        assert(escape_cell(seq![c]) == escape_cell(seq![c].drop_last()) + escape_char(c));
        assert(escape_cell(seq![c]) =~= escape_char(c));
        lemma_escape_reads_back(rest);
        let e = escape_char(c) + escape_cell(rest);
        assert(escape_cell(s) == e);
        if c == '\\' || c == '|' || c == '`' {
            assert(e.skip(2) =~= escape_cell(rest));
        } else {
            assert(e.drop_first() =~= escape_cell(rest));
        }
        assert(breaks_as_spaces(s) =~= seq![breaks_as_spaces(s)[0]] + breaks_as_spaces(rest));
    }
}

/// Text without backslashes, pipes, backticks or line breaks is left as it is.
pub proof fn lemma_plain_cell_unchanged(s: Seq<char>)
    requires
        forall|i: int|
            0 <= i < s.len() ==> #[trigger] s[i] != '\\' && s[i] != '|' && s[i] != '`' && s[i]
                != '\n' && s[i] != '\r',
    ensures
        escape_cell(s) == s,
    decreases s.len(),
{
    if s.len() > 0 {
        assert forall|i: int| 0 <= i < s.len() - 1 implies #[trigger] s.drop_last()[i] == s[i] by {}
        lemma_plain_cell_unchanged(s.drop_last());
        assert(s[s.len() - 1] == s.last());
        assert(escape_cell(s) =~= s.drop_last().push(s.last()));
    }
}

/// Escapes a value for a Markdown table cell.
pub fn escape_markdown_table_cell(value: &str) -> (r: String)
    ensures
        r@ == escape_cell(value@),
{
    let v = chars_of(value);
    let mut r = String::new();
    for i in 0..v.len()
        invariant
            v@ == value@,
            r@ == escape_cell(v@.take(i as int)),
    {
        let c = v[i];
        assert(v@.take(i + 1).drop_last() =~= v@.take(i as int));
        if c == '\\' {
            push_char(&mut r, '\\');
            push_char(&mut r, '\\');
        } else if c == '|' {
            push_char(&mut r, '\\');
            push_char(&mut r, '|');
        } else if c == '`' {
            push_char(&mut r, '\\');
            push_char(&mut r, '`');
        } else if c == '\n' || c == '\r' {
            push_char(&mut r, ' ');
        } else {
            push_char(&mut r, c);
        }
        assert(r@ =~= escape_cell(v@.take(i + 1)));
    }
    assert(v@.take(v.len() as int) =~= v@);
    r
}

/// The decimal digit with value `d`.
pub open spec fn digit_char(d: int) -> char {
    (d + 48) as char
}

/// The decimal numeral of `n`, without leading zeros.
pub open spec fn decimal(n: nat) -> Seq<char>
    decreases n,
{
    if n < 10 {
        seq![digit_char(n as int)]
    } else {
        decimal(n / 10).push(digit_char((n % 10) as int))
    }
}

/// Appends the decimal numeral of `n`.
pub fn push_decimal(s: &mut String, n: u64)
    ensures
        final(s)@ == old(s)@ + decimal(n as nat),
    decreases n,
{
    if n >= 10 {
        push_decimal(s, n / 10);
    }
    let d = (n % 10) as u8;
    push_char(s, (d + 48) as char);
    assert(final(s)@ =~= old(s)@ + decimal(n as nat));
}

/// The number written by a sequence of decimal digits.
pub open spec fn digits_value(s: Seq<char>) -> int
    decreases s.len(),
{
    if s.len() == 0 {
        0
    } else {
        digits_value(s.drop_last()) * 10 + (s.last() as int - 48)
    }
}

/// Sizes are written as decimal numerals: digits only, no leading zero, and
/// the number they write is the size.
pub proof fn lemma_decimal_writes_the_number(n: nat)
    ensures
        decimal(n).len() > 0,
        forall|i: int| 0 <= i < decimal(n).len() ==> '0' <= #[trigger] decimal(n)[i] <= '9',
        digits_value(decimal(n)) == n,
        decimal(n)[0] == '0' ==> n == 0,
    decreases n,
{
    if n >= 10 {
        lemma_decimal_writes_the_number(n / 10);
        let d = decimal(n);
        let init = decimal(n / 10);
        assert(d.drop_last() =~= init);
        assert(d[0] == init[0]);
        assert forall|i: int| 0 <= i < d.len() implies '0' <= #[trigger] d[i] <= '9' by {
            if i < init.len() {
                assert(d[i] == init[i]);
            }
        }
        assert(d.last() == digit_char((n % 10) as int));
        assert(d.last() as int == n % 10 + 48);
        assert(digits_value(d) == digits_value(init) * 10 + (d.last() as int - 48));
        assert(n == (n / 10) * 10 + n % 10) by (nonlinear_arith);
    } else {
        let d = decimal(n);
        assert(d.drop_last() =~= Seq::<char>::empty());
        assert(d.last() as int == n + 48);
        assert(digits_value(d) == digits_value(d.drop_last()) * 10 + (d.last() as int - 48));
    }
}

/// The text of the risk-flag cell: the flags separated by commas, or `none`.
pub open spec fn flags_text(flags: Seq<Seq<char>>) -> Seq<char> {
    if flags.len() == 0 {
        "none"@
    } else {
        join(flags, ", "@)
    }
}

/// One row of the artifact table.
pub open spec fn artifact_row(a: ArtifactRecordView) -> Seq<char> {
    "| `"@ + escape_cell(a.path) + "` | "@ + decimal(a.size_bytes as nat) + " | `"@ + a.sha256
        + "` | "@ + escape_cell(flags_text(a.risk_flags)) + " |\n"@
}

/// The rows of the artifact table, in the order of the artifacts.
pub open spec fn artifact_rows(s: Seq<ArtifactRecordView>) -> Seq<char>
    decreases s.len(),
{
    if s.len() == 0 {
        Seq::empty()
    } else {
        artifact_rows(s.drop_last()) + artifact_row(s.last())
    }
}

/// One bullet line per limitation.
pub open spec fn limitation_lines(ls: Seq<Seq<char>>) -> Seq<char>
    decreases ls.len(),
{
    if ls.len() == 0 {
        Seq::empty()
    } else {
        (limitation_lines(ls.drop_last()) + "- "@ + ls.last()).push('\n')
    }
}

/// The body of the limitations section.
pub open spec fn limitations_section(ls: Seq<Seq<char>>) -> Seq<char> {
    if ls.len() == 0 {
        "- No limitations were declared.\n\n"@
    } else {
        limitation_lines(ls).push('\n')
    }
}

/// The body of the risk review section.
pub open spec fn risk_review_section(note: Option<Seq<char>>) -> Seq<char> {
    match note {
        Some(n) => n + "\n\n"@,
        None => "No risky artifacts were explicitly allowed.\n\n"@,
    }
}

/// The Markdown document of a packet.
pub open spec fn markdown(p: EvidencePacketView) -> Seq<char> {
    "# Evidence Packet\n\n"@ + "## Boundary Note\n\n"@ + p.boundary_note + "\n\n"@
        + "## Declared Claim\n\n"@ + p.declared_claim + "\n\n"@ + "## Supported Scope\n\n"@
        + p.supported_scope + "\n\n"@ + "## Limitations\n\n"@ + limitations_section(p.limitations)
        + "## Risk Review\n\n"@ + risk_review_section(p.risk_review_note) + "## Artifacts\n\n"@
        + "| Path | Size Bytes | SHA-256 | Risk Flags |\n"@ + "|---|---:|---|---|\n"@
        + artifact_rows(p.artifacts)
}

/// Every packet's Markdown opens with its title and shows its boundary note,
/// its declared claim and its supported scope.
pub proof fn lemma_markdown_shows_boundary(p: EvidencePacketView)
    ensures
        begins_with(markdown(p), "# Evidence Packet\n\n"@),
        occurs_in(markdown(p), p.boundary_note),
        occurs_in(markdown(p), p.declared_claim),
        occurs_in(markdown(p), p.supported_scope),
{
    let m = markdown(p);
    let a = "# Evidence Packet\n\n"@ + "## Boundary Note\n\n"@;
    let b = a + p.boundary_note + "\n\n"@ + "## Declared Claim\n\n"@;
    let c = b + p.declared_claim + "\n\n"@ + "## Supported Scope\n\n"@;
    let rest = "\n\n"@ + "## Limitations\n\n"@ + limitations_section(p.limitations)
        + "## Risk Review\n\n"@ + risk_review_section(p.risk_review_note) + "## Artifacts\n\n"@
        + "| Path | Size Bytes | SHA-256 | Risk Flags |\n"@ + "|---|---:|---|---|\n"@
        + artifact_rows(p.artifacts);
    assert(m =~= c + p.supported_scope + rest);
    assert(m.subrange(0, "# Evidence Packet\n\n"@.len() as int) =~= "# Evidence Packet\n\n"@);
    assert(m.subrange(a.len() as int, (a.len() + p.boundary_note.len()) as int) =~= p.boundary_note);
    assert(occurs_at(m, p.boundary_note, a.len() as int));
    assert(m.subrange(b.len() as int, (b.len() + p.declared_claim.len()) as int) =~= p.declared_claim);
    assert(occurs_at(m, p.declared_claim, b.len() as int));
    assert(m.subrange(c.len() as int, (c.len() + p.supported_scope.len()) as int) =~= p.supported_scope);
    assert(occurs_at(m, p.supported_scope, c.len() as int));
}

proof fn lemma_occurs_in_concat(a: Seq<char>, mid: Seq<char>, b: Seq<char>, needle: Seq<char>)
    requires
        occurs_in(mid, needle),
    ensures
        occurs_in(a + mid + b, needle),
{
    let i = choose|i: int| occurs_at(mid, needle, i);
    let h = a + mid + b;
    assert(h.subrange(a.len() + i, a.len() + i + needle.len()) =~= mid.subrange(i, i + needle.len()));
    assert(occurs_at(h, needle, a.len() + i));
}

/// The bullet line of one limitation.
pub open spec fn bullet(l: Seq<char>) -> Seq<char> {
    ("- "@ + l).push('\n')
}

proof fn lemma_limitation_lines_hold(ls: Seq<Seq<char>>)
    ensures
        forall|i: int| 0 <= i < ls.len() ==> occurs_in(limitation_lines(ls), bullet(#[trigger] ls[i])),
        ls.len() > 0 ==> begins_with(limitation_lines(ls), bullet(ls[0])),
    decreases ls.len(),
{
    if ls.len() > 0 {
        let init = ls.drop_last();
        lemma_limitation_lines_hold(init);
        let li = limitation_lines(init);
        let whole = limitation_lines(ls);
        assert(whole =~= li + bullet(ls.last()));
        assert forall|i: int| 0 <= i < ls.len() implies occurs_in(whole, bullet(#[trigger] ls[i])) by {
            if i < init.len() {
                assert(init[i] == ls[i]);
                lemma_occurs_in_concat(Seq::empty(), li, bullet(ls.last()), bullet(ls[i]));
                assert(Seq::<char>::empty() + li + bullet(ls.last()) =~= whole);
            } else {
                assert(occurs_at(bullet(ls.last()), bullet(ls.last()), 0)) by {
                    assert(bullet(ls.last()).subrange(0, bullet(ls.last()).len() as int) =~= bullet(ls.last()));
                }
                lemma_occurs_in_concat(li, bullet(ls.last()), Seq::empty(), bullet(ls[i]));
                assert(li + bullet(ls.last()) + Seq::<char>::empty() =~= whole);
            }
        }
        if init.len() == 0 {
            assert(li =~= Seq::<char>::empty());
            assert(whole.subrange(0, bullet(ls[0]).len() as int) =~= bullet(ls[0]));
        } else {
            assert(init[0] == ls[0]);
            assert(whole.subrange(0, bullet(ls[0]).len() as int) =~= li.subrange(0, bullet(ls[0]).len() as int));
        }
    }
}

/// Every declared limitation is listed as its own bullet line, and the
/// section under the Limitations heading starts with the first of them; the
/// sentence that none were declared stands under the heading exactly when
/// none were.
pub proof fn lemma_markdown_lists_limitations(p: EvidencePacketView)
    ensures
        forall|i: int|
            0 <= i < p.limitations.len() ==> occurs_in(markdown(p), bullet(#[trigger] p.limitations[i])),
        p.limitations.len() > 0 ==> occurs_in(markdown(p), "## Limitations\n\n"@ + bullet(p.limitations[0])),
        p.limitations.len() == 0 ==> occurs_in(markdown(p), "## Limitations\n\n"@ + "- No limitations were declared.\n\n"@),
{
    let ls = p.limitations;
    let x = "# Evidence Packet\n\n"@ + "## Boundary Note\n\n"@ + p.boundary_note + "\n\n"@
        + "## Declared Claim\n\n"@ + p.declared_claim + "\n\n"@ + "## Supported Scope\n\n"@
        + p.supported_scope + "\n\n"@;
    let h = "## Limitations\n\n"@;
    let y = "## Risk Review\n\n"@ + risk_review_section(p.risk_review_note) + "## Artifacts\n\n"@
        + "| Path | Size Bytes | SHA-256 | Risk Flags |\n"@ + "|---|---:|---|---|\n"@
        + artifact_rows(p.artifacts);
    let sec = limitations_section(ls);
    assert(markdown(p) =~= x + (h + sec) + y);
    if ls.len() == 0 {
        let needle = h + "- No limitations were declared.\n\n"@;
        assert(h + sec =~= needle);
        assert(occurs_at(h + sec, needle, 0)) by {
            assert((h + sec).subrange(0, needle.len() as int) =~= needle);
        }
        lemma_occurs_in_concat(x, h + sec, y, needle);
    } else {
        lemma_limitation_lines_hold(ls);
        let lines = limitation_lines(ls);
        assert(sec =~= lines + seq!['\n']);
        assert forall|i: int| 0 <= i < ls.len() implies occurs_in(markdown(p), bullet(#[trigger] ls[i])) by {
            lemma_occurs_in_concat(x + h, lines, seq!['\n'] + y, bullet(ls[i]));
            assert(x + h + lines + (seq!['\n'] + y) =~= markdown(p));
        }
        let needle = h + bullet(ls[0]);
        assert(occurs_at(h + sec, needle, 0)) by {
            assert(lines.subrange(0, bullet(ls[0]).len() as int) =~= bullet(ls[0]));
            assert((h + sec).subrange(0, needle.len() as int) =~= needle);
        }
        lemma_occurs_in_concat(x, h + sec, y, needle);
    }
}

proof fn lemma_artifact_rows_hold(s: Seq<ArtifactRecordView>)
    ensures
        forall|i: int| 0 <= i < s.len() ==> occurs_in(artifact_rows(s), artifact_row(#[trigger] s[i])),
    decreases s.len(),
{
    if s.len() > 0 {
        let init = s.drop_last();
        lemma_artifact_rows_hold(init);
        let ri = artifact_rows(init);
        let last = artifact_row(s.last());
        let whole = artifact_rows(s);
        assert(whole == ri + last);
        assert forall|i: int| 0 <= i < s.len() implies occurs_in(whole, artifact_row(#[trigger] s[i])) by {
            if i < init.len() {
                assert(init[i] == s[i]);
                lemma_occurs_in_concat(Seq::empty(), ri, last, artifact_row(s[i]));
                assert(Seq::<char>::empty() + ri + last =~= whole);
            } else {
                assert(occurs_at(last, last, 0)) by {
                    assert(last.subrange(0, last.len() as int) =~= last);
                }
                lemma_occurs_in_concat(ri, last, Seq::empty(), artifact_row(s[i]));
                assert(ri + last + Seq::<char>::empty() =~= whole);
            }
        }
    }
}

/// The parts of the Markdown around its risk review section and its table.
proof fn lemma_markdown_parts(p: EvidencePacketView)
    ensures
        markdown(p) == ("# Evidence Packet\n\n"@ + "## Boundary Note\n\n"@ + p.boundary_note + "\n\n"@
            + "## Declared Claim\n\n"@ + p.declared_claim + "\n\n"@ + "## Supported Scope\n\n"@
            + p.supported_scope + "\n\n"@ + "## Limitations\n\n"@ + limitations_section(p.limitations))
            + ("## Risk Review\n\n"@ + risk_review_section(p.risk_review_note)) + (("## Artifacts\n\n"@
            + "| Path | Size Bytes | SHA-256 | Risk Flags |\n"@ + "|---|---:|---|---|\n"@)
            + artifact_rows(p.artifacts)),
{
    assert(markdown(p) =~= ("# Evidence Packet\n\n"@ + "## Boundary Note\n\n"@ + p.boundary_note
        + "\n\n"@ + "## Declared Claim\n\n"@ + p.declared_claim + "\n\n"@ + "## Supported Scope\n\n"@
        + p.supported_scope + "\n\n"@ + "## Limitations\n\n"@ + limitations_section(p.limitations))
        + ("## Risk Review\n\n"@ + risk_review_section(p.risk_review_note)) + (("## Artifacts\n\n"@
        + "| Path | Size Bytes | SHA-256 | Risk Flags |\n"@ + "|---|---:|---|---|\n"@)
        + artifact_rows(p.artifacts)));
}

/// The risk review section shows the review note when there is one, and
/// says that no risky artifacts were allowed when there is none.
pub proof fn lemma_markdown_shows_review(p: EvidencePacketView)
    ensures
        p.risk_review_note matches Some(n) ==> occurs_in(markdown(p), "## Risk Review\n\n"@ + n + "\n\n"@),
        p.risk_review_note is None ==> occurs_in(
            markdown(p),
            "## Risk Review\n\n"@ + "No risky artifacts were explicitly allowed.\n\n"@,
        ),
{
    lemma_markdown_parts(p);
    let x = "# Evidence Packet\n\n"@ + "## Boundary Note\n\n"@ + p.boundary_note + "\n\n"@
        + "## Declared Claim\n\n"@ + p.declared_claim + "\n\n"@ + "## Supported Scope\n\n"@
        + p.supported_scope + "\n\n"@ + "## Limitations\n\n"@ + limitations_section(p.limitations);
    let rv = "## Risk Review\n\n"@ + risk_review_section(p.risk_review_note);
    let y = ("## Artifacts\n\n"@ + "| Path | Size Bytes | SHA-256 | Risk Flags |\n"@
        + "|---|---:|---|---|\n"@) + artifact_rows(p.artifacts);
    assert(occurs_at(rv, rv, 0)) by {
        assert(rv.subrange(0, rv.len() as int) =~= rv);
    }
    lemma_occurs_in_concat(x, rv, y, rv);
    match p.risk_review_note {
        Some(n) => {
            assert(rv =~= "## Risk Review\n\n"@ + n + "\n\n"@);
        },
        None => {},
    }
}

/// Every artifact has its own table row, which opens with its escaped path
/// in backticks followed by its size.
pub proof fn lemma_markdown_lists_artifacts(p: EvidencePacketView)
    ensures
        forall|i: int|
            0 <= i < p.artifacts.len() ==> occurs_in(
                markdown(p),
                "| `"@ + escape_cell((#[trigger] p.artifacts[i]).path) + "` | "@ + decimal(
                    p.artifacts[i].size_bytes as nat,
                ) + " | `"@,
            ),
{
    lemma_markdown_parts(p);
    let x = ("# Evidence Packet\n\n"@ + "## Boundary Note\n\n"@ + p.boundary_note + "\n\n"@
        + "## Declared Claim\n\n"@ + p.declared_claim + "\n\n"@ + "## Supported Scope\n\n"@
        + p.supported_scope + "\n\n"@ + "## Limitations\n\n"@ + limitations_section(p.limitations))
        + ("## Risk Review\n\n"@ + risk_review_section(p.risk_review_note)) + ("## Artifacts\n\n"@
        + "| Path | Size Bytes | SHA-256 | Risk Flags |\n"@ + "|---|---:|---|---|\n"@);
    let rows = artifact_rows(p.artifacts);
    assert(markdown(p) =~= x + rows + Seq::<char>::empty());
    lemma_artifact_rows_hold(p.artifacts);
    assert forall|i: int| 0 <= i < p.artifacts.len() implies occurs_in(
        markdown(p),
        "| `"@ + escape_cell((#[trigger] p.artifacts[i]).path) + "` | "@ + decimal(
            p.artifacts[i].size_bytes as nat,
        ) + " | `"@,
    ) by {
        let a = p.artifacts[i];
        let head = "| `"@ + escape_cell(a.path) + "` | "@ + decimal(a.size_bytes as nat) + " | `"@;
        lemma_row_opens_with(a);
        let row = artifact_row(a);
        assert(occurs_in(rows, row));
        let k = choose|k: int| occurs_at(rows, row, k);
        assert(occurs_at(rows, head, k)) by {
            assert(rows.subrange(k, k + head.len()) =~= row.subrange(0, head.len() as int));
        }
        lemma_occurs_in_concat(x, rows, Seq::empty(), head);
    }
}

proof fn lemma_row_opens_with(a: ArtifactRecordView)
    ensures
        ({
            let head = "| `"@ + escape_cell(a.path) + "` | "@ + decimal(a.size_bytes as nat) + " | `"@;
            head.len() <= artifact_row(a).len() && artifact_row(a).subrange(0, head.len() as int)
                == head
        }),
{
    let head = "| `"@ + escape_cell(a.path) + "` | "@ + decimal(a.size_bytes as nat) + " | `"@;
    let tail = a.sha256 + "` | "@ + escape_cell(flags_text(a.risk_flags)) + " |\n"@;
    assert(artifact_row(a) =~= head + tail);
    assert(artifact_row(a).subrange(0, head.len() as int) =~= head);
}

fn push_artifact_row(s: &mut String, a: &ArtifactRecord)
    ensures
        final(s)@ == old(s)@ + artifact_row(a@),
{
    s.append("| `");
    let path = escape_markdown_table_cell(a.path.as_str());
    s.append(path.as_str());
    s.append("` | ");
    push_decimal(s, a.size_bytes);
    s.append(" | `");
    s.append(a.sha256.as_str());
    s.append("` | ");
    let flags = if a.risk_flags.len() == 0 {
        String::from_str("none")
    } else {
        join_strings(&a.risk_flags, ", ")
    };
    let cell = escape_markdown_table_cell(flags.as_str());
    s.append(cell.as_str());
    s.append(" |\n");
    assert(final(s)@ =~= old(s)@ + artifact_row(a@));
}

/// Renders a packet as a Markdown document.
pub fn render_markdown(packet: &EvidencePacket) -> (r: String)
    ensures
        r@ == markdown(packet@),
{
    let mut m = String::new();
    m.append("# Evidence Packet\n\n");
    m.append("## Boundary Note\n\n");
    m.append(packet.boundary_note.as_str());
    m.append("\n\n");
    m.append("## Declared Claim\n\n");
    m.append(packet.declared_claim.as_str());
    m.append("\n\n");
    m.append("## Supported Scope\n\n");
    m.append(packet.supported_scope.as_str());
    m.append("\n\n");
    m.append("## Limitations\n\n");
    let ghost head = m@;
    if packet.limitations.len() == 0 {
        m.append("- No limitations were declared.\n\n");
    } else {
        for i in 0..packet.limitations.len()
            invariant
                m@ == head + limitation_lines(views(packet.limitations@.take(i as int))),
        {
            assert(views(packet.limitations@.take(i + 1)).drop_last() =~= views(
                packet.limitations@.take(i as int),
            ));
            m.append("- ");
            m.append(packet.limitations[i].as_str());
            push_char(&mut m, '\n');
            assert(m@ =~= head + limitation_lines(views(packet.limitations@.take(i + 1))));
        }
        assert(packet.limitations@.take(packet.limitations.len() as int) =~= packet.limitations@);
        push_char(&mut m, '\n');
    }
    assert(m@ =~= head + limitations_section(packet@.limitations));
    m.append("## Risk Review\n\n");
    match &packet.risk_review_note {
        Some(note) => {
            m.append(note.as_str());
            m.append("\n\n");
        },
        None => m.append("No risky artifacts were explicitly allowed.\n\n"),
    }
    m.append("## Artifacts\n\n");
    m.append("| Path | Size Bytes | SHA-256 | Risk Flags |\n");
    m.append("|---|---:|---|---|\n");
    let ghost table = m@;
    for i in 0..packet.artifacts.len()
        invariant
            m@ == table + artifact_rows(record_views(packet.artifacts@.take(i as int))),
    {
        assert(record_views(packet.artifacts@.take(i + 1)).drop_last() =~= record_views(
            packet.artifacts@.take(i as int),
        ));
        push_artifact_row(&mut m, &packet.artifacts[i]);
        assert(m@ =~= table + artifact_rows(record_views(packet.artifacts@.take(i + 1))));
    }
    assert(packet.artifacts@.take(packet.artifacts.len() as int) =~= packet.artifacts@);
    assert(m@ =~= markdown(packet@));
    m
}

} // verus!
