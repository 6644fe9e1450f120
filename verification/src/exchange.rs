//! What the problem service writes, the player reads back: the laws that tie the written
//! form of problem data to the parsers.
use vstd::prelude::*;
use crate::decimal::{i64_text, is_digit, lemma_i64_text_chars, lemma_i64_text_parses, parse_i64, IntErrorKind};
use crate::grid::grid_view;
use crate::parser::{
    grid_body, parse_bool_grid_spec, parse_bool_item, parse_bool_items, parse_bool_row,
    parse_bool_rows, parse_items, parse_vector_spec, row_separator, vector_body,
};
use crate::problems::{bool_text, item_separator, list_text, DBColumn};
use crate::text::{
    is_white_space, join, lemma_join_first, lemma_join_last, lemma_join_prefixed,
    lemma_split_join, lemma_strip_back_snoc, lemma_strip_front_cons, lemma_trim_plain,
    prefixed, split, strip_back, strip_front, trim, CharClass,
};

verus! {

/// Written numbers, after the first, follow a space; trimmed, each reads back.
proof fn lemma_parse_items_prefixed(ts: Seq<Seq<char>>, vals: Seq<i64>, n: int)
    requires
        ts.len() == vals.len(),
        0 <= n <= ts.len(),
        forall|i: int| 0 <= i < ts.len() ==> #[trigger] ts[i] == i64_text(vals[i] as int),
    ensures
        parse_items(prefixed(ts, seq![' ']).take(n)) == Ok::<Seq<i64>, IntErrorKind>(vals.take(n)),
    decreases n,
{
    let ps = prefixed(ts, seq![' ']);
    if n == 0 {
        assert(ps.take(0) =~= Seq::<Seq<char>>::empty());
        assert(vals.take(0) =~= Seq::<i64>::empty());
    } else {
        lemma_parse_items_prefixed(ts, vals, n - 1);
        assert(ps.take(n).drop_last() =~= ps.take(n - 1));
        let t = ts[n - 1];
        lemma_i64_text_chars(vals[n - 1]);
        lemma_i64_text_parses(vals[n - 1]);
        assert(!is_white_space(t[0]) && !is_white_space(t.last())) by {
            assert(t[0] == '-' || is_digit(t[0]));
            assert(t[t.len() - 1] == '-' || is_digit(t[t.len() - 1]));
        }
        lemma_trim_plain(t);
        if n - 1 > 0 {
            assert(ps[n - 1] == seq![' '] + t);
            lemma_strip_front_cons(' ', t, CharClass::WhiteSpace);
        }
        assert(trim(ps.take(n).last()) == t);
        assert(vals.take(n) =~= vals.take(n - 1).push(vals[n - 1]));
    }
}

/// A non-empty list of integers, written as the problem service writes it into the database
/// and hands it to the player, is read back by the player's parser as the same list.
pub proof fn law_written_numbers_read_back(data: Vec<i64>)
    requires
        data@.len() > 0,
    ensures
        parse_vector_spec(data.db_text()) == Ok::<Seq<i64>, IntErrorKind>(data@),
{
    let ts = data@.map_values(|v: i64| v.db_text());
    assert forall|i: int| 0 <= i < ts.len() implies #[trigger] ts[i] == i64_text(data@[i] as int) by {
    }
    let sep = item_separator();
    let j = join(ts, sep);
    let text = list_text(ts);
    assert(text == data.db_text());
    lemma_i64_text_chars(data@[0]);
    lemma_i64_text_chars(data@[ts.len() - 1]);
    lemma_join_first(ts, sep);
    lemma_join_last(ts, sep);
    let j0 = j[0];
    assert(j0 == ts[0][0]);
    assert(j0 == '-' || is_digit(j0));
    assert(j.last() == '-' || is_digit(j.last())) by {
        assert(j.last() == ts.last()[ts.last().len() - 1]);
    }
    lemma_strip_front_cons('[', j + seq![']'], CharClass::Exactly('['));
    assert(text =~= seq!['['] + (j + seq![']']));
    assert((j + seq![']'])[0] == j0);
    assert(strip_front(text, CharClass::Exactly('[')) == j + seq![']']);
    lemma_strip_back_snoc(j, ']', CharClass::Exactly(']'));
    assert(vector_body(text) == j);
    let ps = prefixed(ts, seq![' ']);
    assert(sep == seq![','] + seq![' ']);
    lemma_join_prefixed(ts, seq![','], seq![' ']);
    assert forall|i: int, k: int| 0 <= i < ps.len() && 0 <= k < ps[i].len() implies #[trigger] ps[i][k] != seq![','][0] by {
        lemma_i64_text_chars(data@[i]);
        if i > 0 && k == 0 {
        } else if i > 0 {
            assert(ps[i][k] == ts[i][k - 1]);
        }
    }
    lemma_split_join(ps, seq![',']);
    lemma_parse_items_prefixed(ts, data@, ts.len() as int);
    assert(ps.take(ps.len() as int) =~= ps);
    assert(data@.take(ts.len() as int) =~= data@);
}

/// The characters that a written boolean is made of.
spec fn bool_char(c: char) -> bool {
    c == 't' || c == 'r' || c == 'u' || c == 'e' || c == 'f' || c == 'a' || c == 'l' || c == 's'
}

proof fn lemma_parse_bool_items_prefixed(ts: Seq<Seq<char>>, vals: Seq<bool>, n: int)
    requires
        ts.len() == vals.len(),
        0 <= n <= ts.len(),
        forall|i: int| 0 <= i < ts.len() ==> #[trigger] ts[i] == bool_text(vals[i]),
    ensures
        parse_bool_items(prefixed(ts, seq![' ']).take(n)) == Ok::<Seq<bool>, Seq<char>>(vals.take(n)),
    decreases n,
{
    let ps = prefixed(ts, seq![' ']);
    if n == 0 {
        assert(ps.take(0) =~= Seq::<Seq<char>>::empty());
        assert(vals.take(0) =~= Seq::<bool>::empty());
    } else {
        lemma_parse_bool_items_prefixed(ts, vals, n - 1);
        assert(ps.take(n).drop_last() =~= ps.take(n - 1));
        let t = ts[n - 1];
        lemma_trim_plain(t);
        if n - 1 > 0 {
            assert(ps[n - 1] == seq![' '] + t);
            lemma_strip_front_cons(' ', t, CharClass::WhiteSpace);
        }
        assert(trim(ps.take(n).last()) == t);
        assert(parse_bool_item(t) == Ok::<bool, Seq<char>>(vals[n - 1]));
        assert(vals.take(n) =~= vals.take(n - 1).push(vals[n - 1]));
    }
}

/// The inside of a written row: its booleans joined by `, `.
spec fn row_inner(row: Seq<bool>) -> Seq<char> {
    join(row.map_values(|b: bool| bool_text(b)), item_separator())
}

proof fn lemma_row_inner(row: Seq<bool>)
    requires
        row.len() > 0,
    ensures
        row_inner(row).len() > 0,
        row_inner(row)[0] == 't' || row_inner(row)[0] == 'f',
        row_inner(row).last() == 'e',
        forall|k: int| 0 <= k < row_inner(row).len() ==> {
            let c = #[trigger] row_inner(row)[k];
            bool_char(c) || c == ',' || c == ' '
        },
        parse_bool_row(row_inner(row)) == Ok::<Seq<bool>, Seq<char>>(row),
{
    let ts = row.map_values(|b: bool| bool_text(b));
    let ps = prefixed(ts, seq![' ']);
    let j = row_inner(row);
    lemma_join_first(ts, item_separator());
    lemma_join_last(ts, item_separator());
    assert(item_separator() == seq![','] + seq![' ']);
    lemma_join_prefixed(ts, seq![','], seq![' ']);
    assert(j == join(ps, seq![',']));
    assert forall|i: int, k: int| 0 <= i < ps.len() && 0 <= k < ps[i].len() implies bool_char(#[trigger] ps[i][k]) || ps[i][k] == ' ' by {
        if i > 0 && k > 0 {
            assert(ps[i][k] == ts[i][k - 1]);
        }
    }
    lemma_join_chars(ps, seq![',']);
    lemma_split_join(ps, seq![',']);
    assert(strip_front(j, CharClass::Bracket) == j);
    assert(strip_back(j, CharClass::Bracket) == j);
    lemma_parse_bool_items_prefixed(ts, row, ts.len() as int);
    assert(ps.take(ps.len() as int) =~= ps);
    assert(row.take(ts.len() as int) =~= row);
}

/// Every character of a join is a piece's character or a separator's.
proof fn lemma_join_chars(ps: Seq<Seq<char>>, sep: Seq<char>)
    requires
        forall|i: int, k: int| 0 <= i < ps.len() && 0 <= k < ps[i].len() ==> bool_char(#[trigger] ps[i][k]) || ps[i][k] == ' ',
        sep == seq![','],
    ensures
        forall|k: int| 0 <= k < join(ps, sep).len() ==> {
            let c = #[trigger] join(ps, sep)[k];
            bool_char(c) || c == ',' || c == ' '
        },
    decreases ps.len(),
{
    if ps.len() >= 2 {
        lemma_join_chars(ps.drop_last(), sep);
        let a = join(ps.drop_last(), sep);
        let l = ps.last();
        assert forall|k: int| 0 <= k < join(ps, sep).len() implies {
            let c = #[trigger] join(ps, sep)[k];
            bool_char(c) || c == ',' || c == ' '
        } by {
            if k < a.len() {
                assert(join(ps, sep)[k] == a[k]);
            } else if k == a.len() {
            } else {
                assert(join(ps, sep)[k] == l[k - a.len() - 1]);
                assert(l == ps[ps.len() - 1]);
            }
        }
    } else if ps.len() == 1 {
        assert forall|k: int| 0 <= k < join(ps, sep).len() implies {
            let c = #[trigger] join(ps, sep)[k];
            bool_char(c) || c == ',' || c == ' '
        } by {
            assert(join(ps, sep)[k] == ps[0][k]);
        }
    }
}

/// Rows written as `[..]` and joined by `, ` are the row insides joined by `], [`, bracketed.
proof fn lemma_rows_join(inners: Seq<Seq<char>>)
    requires
        inners.len() > 0,
    ensures
        join(inners.map_values(|x: Seq<char>| seq!['['] + x + seq![']']), item_separator())
            == seq!['['] + join(inners, row_separator()) + seq![']'],
    decreases inners.len(),
{
    let rs = inners.map_values(|x: Seq<char>| seq!['['] + x + seq![']']);
    if inners.len() >= 2 {
        lemma_rows_join(inners.drop_last());
        assert(rs.drop_last() =~= inners.drop_last().map_values(|x: Seq<char>| seq!['['] + x + seq![']']));
        let a = join(inners.drop_last(), row_separator());
        let l = inners.last();
        assert((seq!['['] + a + seq![']']) + item_separator() + (seq!['['] + l + seq![']']) =~= seq!['['] + (a + row_separator() + l) + seq![']']);
    } else {
        assert(join(rs, item_separator()) == rs[0]);
    }
}

/// A non-empty map whose rows are non-empty, written as the problem service writes it into
/// the database and hands it to the player, is read back by the player's parser as the same map.
pub proof fn law_written_map_reads_back(g: Vec<Vec<bool>>)
    requires
        g@.len() > 0,
        forall|r: int| 0 <= r < g@.len() ==> #[trigger] g@[r]@.len() > 0,
    ensures
        parse_bool_grid_spec(g.db_text()) == Ok::<Seq<Seq<bool>>, Seq<char>>(grid_view(&g)),
{
    let rows = grid_view(&g);
    let inners = rows.map_values(|row: Seq<bool>| row_inner(row));
    let rowtexts = g@.map_values(|row: Vec<bool>| row.db_text());
    assert(rowtexts =~= inners.map_values(|x: Seq<char>| seq!['['] + x + seq![']'])) by {
        assert forall|r: int| 0 <= r < rowtexts.len() implies #[trigger] rowtexts[r] == seq!['['] + inners[r] + seq![']'] by {
            assert(g@[r]@.map_values(|v: bool| v.db_text()) =~= rows[r].map_values(|b: bool| bool_text(b)));
        }
    }
    lemma_rows_join(inners);
    let x = join(inners, row_separator());
    let text = g.db_text();
    assert(text == list_text(rowtexts));
    assert(text =~= seq!['['] + (seq!['['] + (x + seq![']'] + seq![']'])));
    lemma_row_inner(rows[0]);
    lemma_row_inner(rows[rows.len() - 1]);
    lemma_join_first(inners, row_separator());
    lemma_join_last(inners, row_separator());
    assert(x[0] == inners[0][0]);
    assert(x.last() == inners.last().last());
    assert(!is_white_space(text[0]));
    assert(!is_white_space(text.last()));
    lemma_trim_plain(text);
    lemma_strip_front_cons('[', seq!['['] + (x + seq![']'] + seq![']']), CharClass::Exactly('['));
    lemma_strip_front_cons('[', x + seq![']'] + seq![']'], CharClass::Exactly('['));
    assert((x + seq![']'] + seq![']'])[0] == x[0]);
    assert(x + seq![']'] + seq![']'] == (x + seq![']']) + seq![']']);
    lemma_strip_back_snoc(x + seq![']'], ']', CharClass::Exactly(']'));
    lemma_strip_back_snoc(x, ']', CharClass::Exactly(']'));
    assert(grid_body(text) == x);
    assert forall|i: int, k: int| 0 <= i < inners.len() && 0 <= k < inners[i].len() implies #[trigger] inners[i][k] != row_separator()[0] by {
        lemma_row_inner(rows[i]);
    }
    lemma_split_join(inners, row_separator());
    lemma_parse_bool_rows(inners, rows, inners.len() as int);
    assert(inners.take(inners.len() as int) =~= inners);
    assert(rows.take(inners.len() as int) =~= rows);
}

proof fn lemma_parse_bool_rows(inners: Seq<Seq<char>>, rows: Seq<Seq<bool>>, n: int)
    requires
        inners.len() == rows.len(),
        0 <= n <= inners.len(),
        forall|r: int| 0 <= r < rows.len() ==> #[trigger] rows[r].len() > 0,
        forall|r: int| 0 <= r < inners.len() ==> #[trigger] inners[r] == row_inner(rows[r]),
    ensures
        parse_bool_rows(inners.take(n)) == Ok::<Seq<Seq<bool>>, Seq<char>>(rows.take(n)),
    decreases n,
{
    if n == 0 {
        assert(inners.take(0) =~= Seq::<Seq<char>>::empty());
        assert(rows.take(0) =~= Seq::<Seq<bool>>::empty());
    } else {
        lemma_parse_bool_rows(inners, rows, n - 1);
        assert(inners.take(n).drop_last() =~= inners.take(n - 1));
        lemma_row_inner(rows[n - 1]);
        assert(inners.take(n).last() == inners[n - 1]);
        assert(rows.take(n) =~= rows.take(n - 1).push(rows[n - 1]));
    }
}

} // verus!
