//! The prime export endpoint's text work: the tag filter of the query, the
//! CSV document, and the download headers.
use vstd::prelude::*;
use crate::text::{chars_vec, push_char, push_str, push_signed, signed_decimal, str_eq};
use crate::dashboard::{comma_index, trimmed, trim_range};

verus! {

// ── tag filter ──────────────────────────────────────────────────────

/// The texts of a vector of strings.
pub open spec fn views(v: Seq<String>) -> Seq<Seq<char>> {
    v.map_values(|x: String| x@)
}

/// The tags of a filter: the comma-separated fields of `s`, each trimmed.
pub open spec fn tag_list(s: Seq<char>) -> Seq<Seq<char>>
    decreases s.len(),
{
    let k = comma_index(s);
    if k >= s.len() {
        seq![trimmed(s)]
    } else {
        seq![trimmed(s.take(k as int))] + tag_list(s.skip((k + 1) as int))
    }
}

/// The first comma of `s` is at k (k = s.len() when there is none).
proof fn lemma_comma_index_at(s: Seq<char>, k: int)
    requires
        0 <= k <= s.len(),
        forall|j: int| 0 <= j < k ==> s[j] != ',',
        k == s.len() || s[k] == ',',
    ensures
        comma_index(s) == k,
    decreases k,
{
    if k > 0 {
        lemma_comma_index_at(s.drop_first(), k - 1);
    }
}

/// Split a tag filter at its commas and trim each tag.
pub fn tag_filter(tags: &str) -> (r: Vec<String>)
    ensures
        views(r@) == tag_list(tags@),
{
    let cs = chars_vec(tags);
    let n = cs.len();
    let mut out: Vec<String> = Vec::new();
    let mut start: usize = 0;
    let mut i: usize = 0;
    assert(cs@.skip(0) =~= cs@);
    assert(views(out@) + tag_list(cs@.skip(0)) =~= tag_list(cs@));
    while i < n
        invariant
            n == cs@.len(),
            cs@ == tags@,
            start <= i <= n,
            forall|j: int| start <= j < i ==> cs@[j] != ',',
            views(out@) + tag_list(cs@.skip(start as int)) == tag_list(cs@),
        decreases n - i,
    {
        if cs[i] == ',' {
            let ghost rest = cs@.skip(start as int);
            proof {
                lemma_comma_index_at(rest, i - start);
                assert(rest.take(i - start) =~= cs@.subrange(start as int, i as int));
                assert(rest.skip(i - start + 1) =~= cs@.skip(i + 1));
            }
            let ghost before = out@;
            let field = trim_range(&cs, start, i);
            out.push(field);
            proof {
                assert(views(out@) =~= views(before).push(field@));
                assert(tag_list(rest) == seq![trimmed(cs@.subrange(start as int, i as int))] + tag_list(cs@.skip(i + 1)));
                assert(views(out@) + tag_list(cs@.skip(i + 1)) =~= views(before) + tag_list(rest));
            }
            start = i + 1;
        }
        i = i + 1;
    }
    let ghost rest = cs@.skip(start as int);
    proof {
        lemma_comma_index_at(rest, rest.len() as int);
        assert(rest =~= cs@.subrange(start as int, n as int));
    }
    let ghost before = out@;
    let last = trim_range(&cs, start, n);
    out.push(last);
    proof {
        assert(views(out@) =~= views(before).push(last@));
        assert(views(out@) =~= views(before) + tag_list(rest));
    }
    out
}

// ── CSV document ────────────────────────────────────────────────────

/// A text as the contents of a quoted CSV field: every `"` doubled.
pub open spec fn csv_quoted(s: Seq<char>) -> Seq<char>
    decreases s.len(),
{
    if s.len() == 0 {
        Seq::empty()
    } else {
        csv_quoted(s.drop_last()) + (if s.last() == '"' { seq!['"', '"'] } else { seq![s.last()] })
    }
}

/// Tags joined with `;`.
pub open spec fn joined(tags: Seq<Seq<char>>) -> Seq<char>
    decreases tags.len(),
{
    if tags.len() == 0 {
        Seq::empty()
    } else if tags.len() == 1 {
        tags[0]
    } else {
        joined(tags.drop_last()) + ";"@ + tags.last()
    }
}

/// One exported prime.
pub struct ExportRow {
    pub id: i64,
    pub form: String,
    pub expression: String,
    pub digits: i64,
    /// Discovery time, as RFC 3339 text.
    pub found_at: String,
    pub proof_method: String,
    pub tags: Vec<String>,
}

/// The CSV line of one prime: id, quoted form, quoted expression, digits,
/// time, quoted proof method, and the `;`-joined tags in quotes.
pub open spec fn csv_row(r: ExportRow) -> Seq<char> {
    signed_decimal(r.id as int) + ",\""@ + csv_quoted(r.form@) + "\",\""@ + csv_quoted(r.expression@) + "\","@
        + signed_decimal(r.digits as int) + ","@ + r.found_at@ + ",\""@ + csv_quoted(r.proof_method@) + "\",\""@
        + joined(views(r.tags@)) + "\"\n"@
}

/// The CSV lines of the rows, in order.
pub open spec fn csv_rows(rs: Seq<ExportRow>) -> Seq<char>
    decreases rs.len(),
{
    if rs.len() == 0 { Seq::empty() } else { csv_rows(rs.drop_last()) + csv_row(rs.last()) }
}

/// The CSV export: a header line, then one line per prime.
pub open spec fn csv_document(rs: Seq<ExportRow>) -> Seq<char> {
    "id,form,expression,digits,found_at,proof_method,tags\n"@ + csv_rows(rs)
}

fn push_csv_quoted(out: &mut String, t: &str)
    ensures
        final(out)@ == old(out)@ + csv_quoted(t@),
{
    let cs = chars_vec(t);
    let mut i: usize = 0;
    while i < cs.len()
        invariant
            i <= cs@.len(),
            cs@ == t@,
            out@ == old(out)@ + csv_quoted(cs@.take(i as int)),
        decreases cs@.len() - i,
    {
        let c = cs[i];
        let ghost pre = out@;
        if c == '"' {
            push_char(out, '"');
            push_char(out, '"');
        } else {
            push_char(out, c);
        }
        proof {
            assert(cs@.take(i + 1).drop_last() =~= cs@.take(i as int));
            assert(out@ =~= pre + (if c == '"' { seq!['"', '"'] } else { seq![c] }));
        }
        i = i + 1;
    }
    assert(cs@.take(cs@.len() as int) =~= cs@);
}

fn push_joined(out: &mut String, tags: &Vec<String>)
    ensures
        final(out)@ == old(out)@ + joined(views(tags@)),
{
    let ghost ts = views(tags@);
    let mut i: usize = 0;
    assert(ts.take(0) =~= Seq::<Seq<char>>::empty());
    while i < tags.len()
        invariant
            i <= tags@.len(),
            ts == views(tags@),
            out@ == old(out)@ + joined(ts.take(i as int)),
        decreases tags@.len() - i,
    {
        let ghost pre = out@;
        if i > 0 {
            push_str(out, ";");
        }
        push_str(out, tags[i].as_str());
        proof {
            let t = ts.take(i + 1);
            assert(t.drop_last() =~= ts.take(i as int));
            assert(t.last() == tags@[i as int]@);
            if i == 0 {
                assert(out@ =~= pre + t[0]);
            } else {
                assert(out@ =~= pre + (";"@ + t.last()));
            }
        }
        i = i + 1;
    }
    assert(ts.take(tags@.len() as int) =~= ts);
}

fn push_csv_row(out: &mut String, r: &ExportRow)
    ensures
        final(out)@ == old(out)@ + csv_row(*r),
{
    push_signed(out, r.id);
    push_str(out, ",\"");
    push_csv_quoted(out, r.form.as_str());
    push_str(out, "\",\"");
    push_csv_quoted(out, r.expression.as_str());
    push_str(out, "\",");
    push_signed(out, r.digits);
    push_str(out, ",");
    push_str(out, r.found_at.as_str());
    push_str(out, ",\"");
    push_csv_quoted(out, r.proof_method.as_str());
    push_str(out, "\",\"");
    push_joined(out, &r.tags);
    push_str(out, "\"\n");
    assert(out@ =~= old(out)@ + csv_row(*r));
}

/// The CSV export of the rows (see `csv_document`).
pub fn export_csv(rows: &[ExportRow]) -> (s: String)
    ensures
        s@ == csv_document(rows@),
{
    let mut s = String::from_str("id,form,expression,digits,found_at,proof_method,tags\n");
    let ghost head = s@;
    let ghost rs = rows@;
    let mut i: usize = 0;
    assert(rs.take(0) =~= Seq::<ExportRow>::empty());
    while i < rows.len()
        invariant
            i <= rs.len(),
            rs == rows@,
            head == "id,form,expression,digits,found_at,proof_method,tags\n"@,
            s@ == head + csv_rows(rs.take(i as int)),
        decreases rs.len() - i,
    {
        push_csv_row(&mut s, &rows[i]);
        proof {
            assert(rs.take(i + 1).drop_last() =~= rs.take(i as int));
        }
        i = i + 1;
    }
    assert(rs.take(rs.len() as int) =~= rs);
    s
}

// ── download headers ────────────────────────────────────────────────

/// The export is JSON exactly when the format asked for is "json"; CSV
/// otherwise (and by default).
pub fn export_wants_json(format: Option<&str>) -> (r: bool)
    ensures
        r == (format matches Some(f) && f@ == "json"@),
{
    match format {
        Some(f) => str_eq(f, "json"),
        None => false,
    }
}

/// The content type of an export.
pub fn export_content_type(json: bool) -> (t: &'static str)
    ensures
        t@ == (if json { "application/json"@ } else { "text/csv"@ }),
{
    if json { "application/json" } else { "text/csv" }
}

/// The Content-Disposition of an export: the file is
/// `darkreach-primes[-<form>]-<date>.json` or `.csv`.
pub open spec fn export_disposition_of(form: Option<Seq<char>>, date: Seq<char>, json: bool) -> Seq<char> {
    let suffix = match form {
        Some(f) => "-"@ + f,
        None => Seq::empty(),
    };
    "attachment; filename=\"darkreach-primes"@ + suffix + "-"@ + date + (if json { ".json\""@ } else { ".csv\""@ })
}

/// The characters of an optional string.
pub open spec fn opt_chars(o: Option<&str>) -> Option<Seq<char>> {
    match o {
        Some(s) => Some(s@),
        None => None,
    }
}

/// The Content-Disposition of an export (see `export_disposition_of`).
pub fn export_disposition(form: Option<&str>, date: &str, json: bool) -> (s: String)
    ensures
        s@ == export_disposition_of(opt_chars(form), date@, json),
{
    let mut s = String::from_str("attachment; filename=\"darkreach-primes");
    if let Some(f) = form {
        push_str(&mut s, "-");
        push_str(&mut s, f);
    }
    push_str(&mut s, "-");
    push_str(&mut s, date);
    if json {
        push_str(&mut s, ".json\"");
    } else {
        push_str(&mut s, ".csv\"");
    }
    assert(s@ =~= export_disposition_of(opt_chars(form), date@, json));
    s
}

} // verus!
