//! The durable representation of a vault: one record per line, three
//! comma-separated fields `domain,username,secret`, no header, no escaping.
//!
//! Reading tolerates stray lines: any line that does not split into exactly
//! three fields with a non-empty domain is skipped. Writing and reading are
//! exact inverses on well-formed vaults (`lemma_store_roundtrip`).
use vstd::prelude::*;

use crate::text::{
    field_ok, free_of, lemma_split_concat, lemma_split_pieces,
    lemma_split_sep_free, split_on,
};
use crate::vault::{
    entries_ok, entry_ok, idx_of, lemma_idx_of, unique_keys, vault_wf, Rec, Vault,
};

verus! {

/// The line one entry is written as (without the terminating newline).
pub open spec fn record_line(e: Rec) -> Seq<char> {
    e.0 + seq![','] + e.1 + seq![','] + e.2
}

/// The full file contents for a sequence of entries: each record line
/// followed by a newline.
pub open spec fn render_records(s: Seq<Rec>) -> Seq<char>
    decreases s.len(),
{
    if s.len() == 0 {
        Seq::<char>::empty()
    } else {
        record_line(s[0]) + seq!['\n'] + render_records(s.drop_first())
    }
}

/// What one line contributes on reload: an entry if it has exactly three
/// fields and a non-empty domain, nothing otherwise.
pub open spec fn parse_record(line: Seq<char>) -> Option<Rec> {
    let fs = split_on(line, ',');
    if fs.len() == 3 && fs[0].len() > 0 {
        Some((fs[0], fs[1], fs[2]))
    } else {
        None
    }
}

/// The records a sequence of lines yields, in order, skipping bad lines.
pub open spec fn parse_lines(lines: Seq<Seq<char>>) -> Seq<Rec>
    decreases lines.len(),
{
    if lines.len() == 0 {
        Seq::<Rec>::empty()
    } else {
        match parse_record(lines[0]) {
            Some(e) => seq![e] + parse_lines(lines.drop_first()),
            None => parse_lines(lines.drop_first()),
        }
    }
}

/// The records a whole file yields.
pub open spec fn parse_records(text: Seq<char>) -> Seq<Rec> {
    parse_lines(split_on(text, '\n'))
}

/// How many lines yield no record.
pub open spec fn skipped_count(lines: Seq<Seq<char>>) -> int
    decreases lines.len(),
{
    if lines.len() == 0 {
        0
    } else {
        (if parse_record(lines[0]) is None {
            1int
        } else {
            0int
        }) + skipped_count(lines.drop_first())
    }
}

/// What inserting one record does to the entry sequence: a fresh key is
/// appended; an existing key's entry is removed and the record appended.
pub open spec fn spec_insert(s: Seq<Rec>, e: Rec) -> Seq<Rec> {
    let i = idx_of(s, e.0);
    if i >= 0 {
        s.remove(i).push(e)
    } else {
        s.push(e)
    }
}

/// The vault state after inserting a sequence of records in order.
pub open spec fn load_fold(rs: Seq<Rec>) -> Seq<Rec>
    decreases rs.len(),
{
    if rs.len() == 0 {
        Seq::<Rec>::empty()
    } else {
        spec_insert(load_fold(rs.drop_last()), rs.last())
    }
}

/// The line of a storable entry splits back into its three fields and holds
/// no newline.
pub proof fn lemma_record_line(e: Rec)
    requires
        entry_ok(e),
    ensures
        split_on(record_line(e), ',') == seq![e.0, e.1, e.2],
        free_of(record_line(e), '\n'),
        parse_record(record_line(e)) == Some(e),
{
    let l = record_line(e);
    let tail = e.1 + seq![','] + e.2;
    assert(l =~= e.0 + seq![','] + tail);
    lemma_split_concat(e.0, tail, ',');
    lemma_split_concat(e.1, e.2, ',');
    lemma_split_sep_free(e.2, ',');
    assert(split_on(l, ',') =~= seq![e.0, e.1, e.2]);
    assert forall|i: int| 0 <= i < l.len() implies l[i] != '\n' by {
        let a = e.0.len() as int;
        let b = e.1.len() as int;
        if i < a {
            assert(l[i] == e.0[i]);
        } else if i == a {
            assert(l[i] == ',');
        } else if i < a + 1 + b {
            assert(l[i] == e.1[i - a - 1]);
        } else if i == a + 1 + b {
            assert(l[i] == ',');
        } else {
            assert(l[i] == e.2[i - a - b - 2]);
        }
    }
    assert(parse_record(l) == Some((e.0, e.1, e.2)));
}

/// Rendering distributes over concatenation.
pub proof fn lemma_render_concat(a: Seq<Rec>, b: Seq<Rec>)
    ensures
        render_records(a + b) == render_records(a) + render_records(b),
    decreases a.len(),
{
    if a.len() == 0 {
        assert(a + b =~= b);
        assert(render_records(a) + render_records(b) =~= render_records(b));
    } else {
        assert((a + b)[0] == a[0]);
        assert((a + b).drop_first() =~= a.drop_first() + b);
        lemma_render_concat(a.drop_first(), b);
        assert(render_records(a + b) =~= render_records(a) + render_records(b));
    }
}

/// Parsing distributes over concatenation of line lists.
pub proof fn lemma_parse_lines_concat(a: Seq<Seq<char>>, b: Seq<Seq<char>>)
    ensures
        parse_lines(a + b) == parse_lines(a) + parse_lines(b),
    decreases a.len(),
{
    if a.len() == 0 {
        assert(a + b =~= b);
        assert(parse_lines(a) + parse_lines(b) =~= parse_lines(b));
    } else {
        assert((a + b)[0] == a[0]);
        assert((a + b).drop_first() =~= a.drop_first() + b);
        lemma_parse_lines_concat(a.drop_first(), b);
        assert(parse_lines(a + b) =~= parse_lines(a) + parse_lines(b));
    }
}

/// Parsing inverts rendering on storable entries.
pub proof fn lemma_parse_render(s: Seq<Rec>)
    requires
        entries_ok(s),
    ensures
        parse_records(render_records(s)) == s,
    decreases s.len(),
{
    if s.len() == 0 {
        assert(split_on(Seq::<char>::empty(), '\n') =~~= seq![Seq::<char>::empty()]);
        assert(split_on(Seq::<char>::empty(), ',') =~~= seq![Seq::<char>::empty()]);
        assert(parse_record(Seq::<char>::empty()) is None);
        assert(seq![Seq::<char>::empty()].drop_first() =~~= Seq::<Seq<char>>::empty());
        assert(parse_lines(Seq::<Seq<char>>::empty()) == Seq::<Rec>::empty());
        assert(parse_lines(seq![Seq::<char>::empty()]) =~= Seq::<Rec>::empty());
        assert(parse_records(render_records(s)) =~= s);
    } else {
        let e = s[0];
        let rest = s.drop_first();
        assert(entry_ok(e));
        assert(entries_ok(rest)) by {
            assert(forall|i: int| 0 <= i < rest.len() ==> #[trigger] rest[i] == s[i + 1]);
        }
        lemma_record_line(e);
        let line = record_line(e);
        lemma_split_concat(line, render_records(rest), '\n');
        assert(render_records(s) =~= line + seq!['\n'] + render_records(rest));
        let tail_lines = split_on(render_records(rest), '\n');
        assert(split_on(render_records(s), '\n') == seq![line] + tail_lines);
        lemma_parse_lines_concat(seq![line], tail_lines);
        assert(parse_lines(seq![line]) =~= seq![e]) by {
            assert(seq![line].drop_first() =~~= Seq::<Seq<char>>::empty());
            assert(parse_record(line) == Some(e));
            assert(parse_lines(Seq::<Seq<char>>::empty()) =~= Seq::<Rec>::empty());
            assert(seq![e] + Seq::<Rec>::empty() =~= seq![e]);
        }
        lemma_parse_render(rest);
        assert(parse_records(render_records(s)) == parse_lines(seq![line] + tail_lines));
        assert(parse_lines(seq![line] + tail_lines) == parse_lines(seq![line]) + parse_lines(
            tail_lines,
        ));
        assert(parse_lines(tail_lines) == rest);
        assert(seq![e] + rest =~= s);
        assert(parse_records(render_records(s)) =~= s);
    }
}

/// Inserting a storable record preserves the vault invariant.
pub proof fn lemma_spec_insert_wf(s: Seq<Rec>, e: Rec)
    requires
        vault_wf(s),
        entry_ok(e),
    ensures
        vault_wf(spec_insert(s, e)),
{
    lemma_idx_of(s, e.0);
    let i = idx_of(s, e.0);
    if i >= 0 {
        let t = s.remove(i);
        assert forall|j: int| 0 <= j < t.len() implies (#[trigger] t[j]).0 != e.0 by {
            if j < i {
                assert(t[j] == s[j]);
            } else {
                assert(t[j] == s[j + 1]);
            }
        }
        let u = t.push(e);
        assert forall|p: int, q: int| 0 <= p < q < u.len() implies (#[trigger] u[p]).0 != (
        #[trigger] u[q]).0 by {
            if q < t.len() {
                let sp = if p < i {
                    p
                } else {
                    p + 1
                };
                let sq = if q < i {
                    q
                } else {
                    q + 1
                };
                assert(u[p] == s[sp]);
                assert(u[q] == s[sq]);
            } else {
                assert(u[q] == e);
                assert(t[p].0 != e.0);
            }
        }
        assert(entries_ok(u)) by {
            assert forall|j: int| 0 <= j < u.len() implies entry_ok(#[trigger] u[j]) by {
                if j < t.len() {
                    if j < i {
                        assert(u[j] == s[j]);
                    } else {
                        assert(u[j] == s[j + 1]);
                    }
                } else {
                    assert(u[j] == e);
                }
            }
        }
    } else {
        let u = s.push(e);
        assert forall|p: int, q: int| 0 <= p < q < u.len() implies (#[trigger] u[p]).0 != (
        #[trigger] u[q]).0 by {
            if q < s.len() {
                assert(u[p] == s[p]);
                assert(u[q] == s[q]);
            } else {
                assert(u[q] == e);
                assert(u[p] == s[p]);
                assert(s[p].0 != e.0);
            }
        }
        assert(entries_ok(u)) by {
            assert forall|j: int| 0 <= j < u.len() implies entry_ok(#[trigger] u[j]) by {
                if j < s.len() {
                    assert(u[j] == s[j]);
                } else {
                    assert(u[j] == e);
                }
            }
        }
    }
}

/// Loading storable records yields a well-formed vault.
pub proof fn lemma_load_fold_wf(rs: Seq<Rec>)
    requires
        forall|i: int| 0 <= i < rs.len() ==> entry_ok(#[trigger] rs[i]),
    ensures
        vault_wf(load_fold(rs)),
    decreases rs.len(),
{
    if rs.len() == 0 {
    } else {
        let d = rs.drop_last();
        assert(forall|i: int| 0 <= i < d.len() ==> #[trigger] d[i] == rs[i]);
        lemma_load_fold_wf(d);
        lemma_spec_insert_wf(load_fold(d), rs.last());
    }
}

/// Loading the entries of a well-formed vault reproduces them exactly.
pub proof fn lemma_load_fold_ident(s: Seq<Rec>)
    requires
        vault_wf(s),
    ensures
        load_fold(s) == s,
    decreases s.len(),
{
    if s.len() == 0 {
    } else {
        let d = s.drop_last();
        assert(forall|i: int| 0 <= i < d.len() ==> #[trigger] d[i] == s[i]);
        assert(vault_wf(d));
        lemma_load_fold_ident(d);
        let e = s.last();
        lemma_idx_of(d, e.0);
        if idx_of(d, e.0) >= 0 {
            let i = idx_of(d, e.0);
            assert(s[i].0 == s[s.len() - 1].0);
            assert(false);
        }
        assert(load_fold(s) == d.push(e));
        assert(d.push(e) =~= s);
    }
}

/// Every record a file yields is storable.
pub proof fn lemma_parse_lines_ok(lines: Seq<Seq<char>>)
    requires
        forall|i: int| 0 <= i < lines.len() ==> free_of(#[trigger] lines[i], '\n'),
    ensures
        forall|i: int|
            0 <= i < parse_lines(lines).len() ==> entry_ok(#[trigger] parse_lines(lines)[i]),
    decreases lines.len(),
{
    if lines.len() == 0 {
    } else {
        let t = lines.drop_first();
        assert(forall|i: int| 0 <= i < t.len() ==> #[trigger] t[i] == lines[i + 1]);
        lemma_parse_lines_ok(t);
        let line = lines[0];
        match parse_record(line) {
            Some(e) => {
                lemma_split_pieces(line, ',');
                let fs = split_on(line, ',');
                assert(free_of(fs[0], ',') && free_of(fs[1], ',') && free_of(fs[2], ','));
                assert(free_of(fs[0], '\n') && free_of(fs[1], '\n') && free_of(fs[2], '\n'));
                assert(entry_ok(e));
                assert forall|i: int|
                    0 <= i < parse_lines(lines).len() implies entry_ok(
                    #[trigger] parse_lines(lines)[i],
                ) by {
                    if i >= 1 {
                        assert(parse_lines(lines)[i] == parse_lines(t)[i - 1]);
                    }
                }
            },
            None => {
            },
        }
    }
}

/// Saving a well-formed vault and loading the result reproduces the vault
/// exactly, entries and order alike.
pub proof fn lemma_store_roundtrip(s: Seq<Rec>)
    requires
        vault_wf(s),
    ensures
        load_fold(parse_records(render_records(s))) == s,
{
    lemma_parse_render(s);
    lemma_load_fold_ident(s);
}

/// Split a string at every occurrence of `sep`.
#[verifier::loop_isolation(false)]
fn split_str(s: &str, sep: char) -> (r: Vec<String>)
    ensures
        r.deep_view() == split_on(s@, sep),
{
    let n = s.unicode_len();
    let mut out: Vec<String> = Vec::new();
    let mut start: usize = 0;
    let mut i: usize = 0;
    proof {
        assert(s@.skip(0) =~= s@);
    }
    while i < n
        invariant
            start <= i <= n,
            forall|j: int| start <= j < i ==> s@[j] != sep,
            split_on(s@, sep) == out.deep_view() + split_on(s@.skip(start as int), sep),
        decreases n - i,
    {
        if s.get_char(i) == sep {
            let piece = s.substring_char(start, i).to_owned();
            let ghost pv = piece@;
            let ghost prev = out.deep_view();
            out.push(piece);
            proof {
                assert(free_of(pv, sep));
                assert(s@.skip(start as int) =~= pv + seq![sep] + s@.skip(i as int + 1));
                lemma_split_concat(pv, s@.skip(i as int + 1), sep);
                assert(out.deep_view() =~~= prev.push(pv));
                assert(split_on(s@, sep) =~~= out.deep_view() + split_on(
                    s@.skip(i as int + 1),
                    sep,
                ));
            }
            start = i + 1;
        }
        i = i + 1;
    }
    let piece = s.substring_char(start, n).to_owned();
    let ghost pv = piece@;
    let ghost prev = out.deep_view();
    out.push(piece);
    proof {
        assert(free_of(pv, sep));
        assert(s@.skip(start as int) =~= pv);
        lemma_split_sep_free(pv, sep);
        assert(out.deep_view() =~~= prev.push(pv));
        assert(split_on(s@, sep) =~~= out.deep_view());
    }
    out
}

/// Serialize a vault as its record file: one `domain,username,secret` line
/// per entry, in the vault's order.
#[verifier::loop_isolation(false)]
pub fn write_csv(vault: &Vault) -> (r: String)
    ensures
        r@ == render_records(vault@),
{
    let items = vault.entries();
    let mut out = String::new();
    proof {
        reveal_strlit(",");
        reveal_strlit("\n");
        assert(vault@.take(0) =~= Seq::<Rec>::empty());
    }
    let mut i: usize = 0;
    while i < items.len()
        invariant
            i <= items@.len(),
            out@ == render_records(vault@.take(i as int)),
        decreases items@.len() - i,
    {
        let e = &items[i];
        out.append(e.0.as_str());
        out.append(",");
        out.append(e.1.as_str());
        out.append(",");
        out.append(e.2.as_str());
        out.append("\n");
        proof {
            let rec = vault@[i as int];
            assert(","@ =~= seq![',']);
            assert("\n"@ =~= seq!['\n']);
            lemma_render_concat(vault@.take(i as int), seq![rec]);
            assert(vault@.take(i as int + 1) =~= vault@.take(i as int) + seq![rec]);
            assert(seq![rec].drop_first() =~= Seq::<Rec>::empty());
            assert(render_records(Seq::<Rec>::empty()) == Seq::<char>::empty());
            assert(seq![rec][0] == rec);
            assert(render_records(seq![rec]) == record_line(rec) + seq!['\n'] + render_records(
                Seq::<Rec>::empty(),
            ));
            assert(render_records(seq![rec]) =~= record_line(rec) + seq!['\n']);
            assert(out@ =~= render_records(vault@.take(i as int + 1)));
        }
        i = i + 1;
    }
    proof {
        assert(vault@.take(vault@.len() as int) =~= vault@);
    }
    out
}

/// Load a vault from record-file contents, skipping every line that is not
/// exactly three fields with a non-empty domain, and reporting how many
/// lines were skipped (the empty piece after a final newline counts).
#[verifier::loop_isolation(false)]
pub fn read_csv(contents: &str) -> (r: (Vault, usize))
    ensures
        r.0@ == load_fold(parse_records(contents@)),
        vault_wf(r.0@),
        r.1 == skipped_count(split_on(contents@, '\n')),
{
    let lines = split_str(contents, '\n');
    let ghost lviews = lines.deep_view();
    let mut vault = Vault::new();
    let mut skipped: usize = 0;
    proof {
        assert(lviews.take(0) =~~= Seq::<Seq<char>>::empty());
    }
    let mut li: usize = 0;
    while li < lines.len()
        invariant
            li <= lviews.len(),
            lines@.len() == lviews.len(),
            skipped <= li,
            vault@ == load_fold(parse_lines(lviews.take(li as int))),
            skipped == skipped_count(lviews.take(li as int)),
        decreases lviews.len() - li,
    {
        let ghost line = lviews[li as int];
        let fields = split_str(lines[li].as_str(), ',');
        proof {
            assert(lines@[li as int].deep_view() == line);
            assert(fields.deep_view() == split_on(line, ','));
        }
        if fields.len() == 3 && !fields[0].as_str().is_empty() {
            proof {
                assert(fields@[0]@ == split_on(line, ',')[0]);
                assert(fields@[1]@ == split_on(line, ',')[1]);
                assert(fields@[2]@ == split_on(line, ',')[2]);
                assert(parse_record(line) == Some(
                    (fields@[0]@, fields@[1]@, fields@[2]@),
                ));
            }
            let ghost pre = vault@;
            vault.insert(fields[0].clone(), fields[1].clone(), fields[2].clone());
            proof {
                let e = (fields@[0]@, fields@[1]@, fields@[2]@);
                assert(vault@ == spec_insert(pre, e));
            }
        } else {
            proof {
                if fields@.len() == 3 {
                    assert(fields@[0]@ == split_on(line, ',')[0]);
                    assert(fields@[0]@.len() == 0);
                }
                assert(parse_record(line) is None);
            }
            skipped = skipped + 1;
        }
        proof {
            let pl = parse_lines(lviews.take(li as int));
            assert(lviews.take(li as int + 1) =~~= lviews.take(li as int) + seq![line]);
            lemma_parse_lines_concat_one(lviews.take(li as int), line);
            match parse_record(line) {
                Some(e) => {
                    assert(parse_lines(lviews.take(li as int + 1)) == pl + seq![e]);
                    assert((pl + seq![e]).drop_last() =~= pl);
                    assert((pl + seq![e]).last() == e);
                },
                None => {
                    assert(parse_lines(lviews.take(li as int + 1)) == pl);
                },
            }
        }
        li = li + 1;
    }
    proof {
        assert(lviews.take(lviews.len() as int) =~~= lviews);
        lemma_split_pieces(contents@, '\n');
        lemma_parse_lines_ok(lviews);
        lemma_load_fold_wf(parse_lines(lviews));
    }
    (vault, skipped)
}

/// One-line extension of `lemma_parse_lines_concat`, with the skipped count.
pub proof fn lemma_parse_lines_concat_one(a: Seq<Seq<char>>, line: Seq<char>)
    ensures
        parse_lines(a + seq![line]) == parse_lines(a) + (match parse_record(line) {
            Some(e) => seq![e],
            None => Seq::<Rec>::empty(),
        }),
        skipped_count(a + seq![line]) == skipped_count(a) + (if parse_record(line) is None {
            1int
        } else {
            0int
        }),
    decreases a.len(),
{
    if a.len() == 0 {
        assert(a + seq![line] =~~= seq![line]);
        assert(seq![line].drop_first() =~~= Seq::<Seq<char>>::empty());
        assert(parse_lines(Seq::<Seq<char>>::empty()) =~= Seq::<Rec>::empty());
        assert(skipped_count(Seq::<Seq<char>>::empty()) == 0);
        assert(skipped_count(seq![line]) == (if parse_record(line) is None {
            1int
        } else {
            0int
        }));
        match parse_record(line) {
            Some(e) => {
                assert(seq![e] + Seq::<Rec>::empty() =~= seq![e]);
                assert(parse_lines(seq![line]) =~= seq![e]);
                assert(parse_lines(a) + seq![e] =~= seq![e]);
            },
            None => {
                assert(parse_lines(a + seq![line]) =~= parse_lines(a));
            },
        }
    } else {
        let s = a + seq![line];
        assert(s[0] == a[0]);
        assert(s.drop_first() =~~= a.drop_first() + seq![line]);
        lemma_parse_lines_concat_one(a.drop_first(), line);
        assert(skipped_count(s) == (if parse_record(s[0]) is None {
            1int
        } else {
            0int
        }) + skipped_count(s.drop_first()));
        match parse_record(line) {
            Some(e) => {
                assert(parse_lines(s) =~= parse_lines(a) + seq![e]);
            },
            None => {
                assert(parse_lines(s) =~= parse_lines(a));
            },
        }
    }
}

} // verus!
