//! What the user is shown.

use crate::cli::{named_dir, plain_arguments, without_prefix};
use crate::laws::pieces::holds_bytes_of;
use crate::metainfo::FileInfo;
use crate::rounding::nearest;
use crate::text::decimal;
use crate::types::{FilePriority, TorrentState};
use crate::ui::adding::AddDialog;
use crate::ui::rows::{
    at_hand, chosen_pieces, count_in, end_piece, first_piece, last_part, passes, rate_sum, shown,
    shown_indices, FilterState,
};
use crate::ui::utils::{
    byte_unit, bytes_text, double_of, double_quotient, double_unit, eta_text, hundredths,
    ratio_text, tenths, thousandths, three_digits, two_digits, unit_name,
};
use vstd::prelude::*;

verus! {

/// What a filter lets through.
pub proof fn law_filters(s: TorrentState)
    ensures
        passes(s, FilterState::All),
        passes(s, FilterState::Downloading) <==> (s is Downloading || s is FetchingMetadata),
        passes(s, FilterState::Seeding) <==> s is Seeding,
        passes(s, FilterState::Paused) <==> s is Paused,
        passes(s, FilterState::Complete) <==> (s is Complete || s is Seeding),
{
}

/// The torrents that are shown are those that the filter and the search let
/// through, each once and in order.
pub proof fn law_rows(
    states: Seq<TorrentState>,
    names: Seq<String>,
    filter: FilterState,
    query: Seq<char>,
    n: int,
    i: usize,
)
    requires
        0 <= n <= usize::MAX,
    ensures
        shown_indices(states, names, filter, query, n).contains(i) <==> i < n && shown(
            states[i as int],
            names[i as int]@,
            filter,
            query,
        ),
        forall|j: int, k: int|
            0 <= j < k < shown_indices(states, names, filter, query, n).len() ==> (
            #[trigger] shown_indices(states, names, filter, query, n)[j]) < (
            #[trigger] shown_indices(states, names, filter, query, n)[k]),
        forall|j: int|
            0 <= j < shown_indices(states, names, filter, query, n).len() ==> (
            #[trigger] shown_indices(states, names, filter, query, n)[j]) < n,
    decreases n,
{
    if n > 0 {
        law_rows(states, names, filter, query, n - 1, i);
        let before = shown_indices(states, names, filter, query, n - 1);
        let all = shown_indices(states, names, filter, query, n);
        if all.contains(i) {
            let k = all.index_of(i);
            if k < before.len() {
                assert(before[k] == i);
            }
        }
        if i < n && shown(states[i as int], names[i as int]@, filter, query) {
            if i < n - 1 {
                let k = before.index_of(i);
                assert(all[k] == i);
            } else {
                assert(all[before.len() as int] == i);
            }
        }
    }
}

/// All rates together.
pub open spec fn rates_sum(rates: Seq<u64>, n: int) -> int
    decreases n,
{
    if n <= 0 {
        0
    } else {
        rates_sum(rates, n - 1) + rates[n - 1]
    }
}

proof fn lemma_rates_front(rates: Seq<u64>, n: int)
    requires
        0 <= n < rates.len(),
    ensures
        rates_sum(rates.drop_last(), n) == rates_sum(rates, n),
    decreases n,
{
    if n > 0 {
        lemma_rates_front(rates, n - 1);
    }
}

/// The rate that is shown is that of all torrents together, up to the most that
/// can be counted.
pub proof fn law_total_rate(rates: Seq<u64>)
    ensures
        rate_sum(rates) == if rates_sum(rates, rates.len() as int) > u64::MAX {
            u64::MAX as int
        } else {
            rates_sum(rates, rates.len() as int)
        },
    decreases rates.len(),
{
    if rates.len() > 0 {
        law_total_rate(rates.drop_last());
        lemma_rates_front(rates, rates.len() - 1);
    }
}

/// Nothing, or a text that ends in a slash.
pub open spec fn is_dir(dir: Seq<char>) -> bool {
    dir.len() == 0 || dir[dir.len() - 1] == '/'
}

/// The name of a file is what stands behind the last slash of its path.
pub proof fn law_file_name(path: Seq<char>)
    ensures
        exists|dir: Seq<char>| #[trigger] is_dir(dir) && path == dir + last_part(path),
        !last_part(path).contains('/'),
    decreases path.len(),
{
    if path.len() == 0 || path.last() == '/' {
        assert(path =~= path + last_part(path));
        assert(is_dir(path));
    } else {
        let front = path.drop_last();
        law_file_name(front);
        let dir = choose|dir: Seq<char>| #[trigger] is_dir(dir) && front == dir + last_part(front);
        let name = last_part(front).push(path.last());
        assert(path =~= front.push(path.last()));
        assert(path =~= dir + name);
        if name.contains('/') {
            let k = name.index_of('/');
            if k < last_part(front).len() {
                assert(last_part(front)[k] == '/');
            }
        }
    }
}

/// The digit of a number below ten.
pub open spec fn digit(n: int) -> char {
    if n == 0 {
        '0'
    } else if n == 1 {
        '1'
    } else if n == 2 {
        '2'
    } else if n == 3 {
        '3'
    } else if n == 4 {
        '4'
    } else if n == 5 {
        '5'
    } else if n == 6 {
        '6'
    } else if n == 7 {
        '7'
    } else if n == 8 {
        '8'
    } else {
        '9'
    }
}

proof fn lemma_two_digits(n: nat)
    requires
        n < 100,
    ensures
        two_digits(n) == seq![digit(n as int / 10), digit(n as int % 10)],
{
    reveal_strlit("0");
    reveal_with_fuel(crate::text::decimal_bytes, 3);
    assert(two_digits(n) =~= seq![digit(n as int / 10), digit(n as int % 10)]);
}

/// The time that is left is shown in hours, minutes and seconds, without those
/// in front that are zero.
pub proof fn law_time_left(h: int, m: int, s: int, left: u64)
    requires
        0 <= h,
        0 <= m < 60,
        0 <= s < 60,
        left == 3600 * h + 60 * m + s,
    ensures
        eta_text(Some(left)) == if h > 0 {
            decimal(h as nat) + "h "@ + seq![digit(m / 10), digit(m % 10)] + "m "@ + seq![
                digit(s / 10),
                digit(s % 10),
            ] + "s"@
        } else if m > 0 {
            decimal(m as nat) + "m "@ + seq![digit(s / 10), digit(s % 10)] + "s"@
        } else if s > 0 {
            decimal(s as nat) + "s"@
        } else {
            "done"@
        },
{
    lemma_two_digits(m as nat);
    lemma_two_digits(s as nat);
    assert(left / 3600 == h);
    assert(left % 3600 / 60 == m);
    assert(left % 60 == s);
}

/// A thousand and twenty-four to a power.
pub open spec fn kilo(k: int) -> int {
    if k <= 0 {
        1
    } else if k == 1 {
        1024
    } else if k == 2 {
        1024int * 1024
    } else if k == 3 {
        1024int * 1024 * 1024
    } else {
        1024int * 1024 * 1024 * 1024
    }
}

/// Bytes are shown in the greatest unit of which there is one.
pub proof fn law_byte_units(n: int, k: int)
    requires
        0 <= k <= 4,
        n >= 0,
        k > 0 ==> n >= kilo(k),
        k < 4 ==> n < kilo(k + 1),
    ensures
        byte_unit(n) == kilo(k),
        unit_name(byte_unit(n)) == if k == 0 {
            "B"@
        } else if k == 1 {
            "KiB"@
        } else if k == 2 {
            "MiB"@
        } else if k == 3 {
            "GiB"@
        } else {
            "TiB"@
        },
{
}

/// Rounding goes to a nearest integer, and to the even one of two.
pub proof fn law_rounding(num: int, den: int)
    requires
        den > 0,
    ensures
        2 * (nearest(num, den) * den - num) <= den,
        2 * (num - nearest(num, den) * den) <= den,
        2 * (nearest(num, den) * den - num) == den || 2 * (num - nearest(num, den) * den) == den
            ==> nearest(num, den) % 2 == 0,
{
    let q = num / den;
    let r = num % den;
    vstd::arithmetic::div_mod::lemma_fundamental_div_mod(num, den);
    assert((q + 1) * den == q * den + den) by (nonlinear_arith);
    assert(q * den == den * q) by (nonlinear_arith);
}

/// An amount of bytes below 2^53 is shown with two decimals of its unit, as
/// near as they come.
pub proof fn law_bytes_shown(n: int)
    requires
        1024 <= n < 0x20_0000_0000_0000,
    ensures
        exists|q: int| #[trigger]
            near_hundredths(n, q) && bytes_text(n) == decimal((q / 100) as nat) + "."@ + seq![
                digit(q / 10 % 10),
                digit(q % 10),
            ] + " "@ + unit_name(byte_unit(n)),
{
    let u = byte_unit(n);
    let q = nearest(n * 100, u);
    assert(double_unit(n, 1) == 1);
    assert(double_of(n) == n) by {
        assert(n / 1 == n && n % 1 == 0);
    }
    law_rounding(n * 100, u);
    assert(q >= 0) by (nonlinear_arith)
        requires
            2 * (n * 100 - q * u) <= u,
            u >= 1024,
            n >= u,
    ;
    assert(near_hundredths(n, q));
    lemma_two_digits((q % 100) as nat);
    assert((q % 100) / 10 == q / 10 % 10 && (q % 100) % 10 == q % 10);
    assert(hundredths(q as nat) == decimal((q / 100) as nat) + "."@ + two_digits(
        (q % 100) as nat,
    ));
}

/// So many hundredths of a unit are as near to an amount of bytes as any.
pub open spec fn near_hundredths(n: int, q: int) -> bool {
    2 * (q * byte_unit(n) - 100 * n) <= byte_unit(n) && 2 * (100 * n - q * byte_unit(n))
        <= byte_unit(n)
}

/// The pieces of a file are those that hold bytes of it.
pub proof fn law_file_pieces(f: FileInfo, piece_length: u64, p: int)
    requires
        piece_length > 0,
        f.length > 0,
        0 <= p,
    ensures
        first_piece(f, piece_length) <= p < end_piece(f, piece_length) <==> holds_bytes_of(
            piece_length as int,
            p,
            f,
        ),
{
    let l = piece_length as int;
    let o = f.offset as int;
    let e = f.offset + f.length - 1;
    let a = o / l;
    let b = e / l;
    vstd::arithmetic::div_mod::lemma_fundamental_div_mod(o, l);
    vstd::arithmetic::div_mod::lemma_fundamental_div_mod(e, l);
    assert(o < (p + 1) * l <==> a <= p) by (nonlinear_arith)
        requires
            l > 0,
            o == l * a + o % l,
            0 <= o % l < l,
    ;
    assert(p * l <= e <==> p <= b) by (nonlinear_arith)
        requires
            l > 0,
            e == l * b + e % l,
            0 <= e % l < l,
    ;
}

/// As many pieces of a file are at hand as there are in its range: one more for
/// each.
pub proof fn law_at_hand(have: Seq<bool>, first: int, end: int)
    requires
        0 <= first < end <= have.len(),
    ensures
        at_hand(have, first, first) == 0,
        at_hand(have, first, end) == at_hand(have, first, end - 1) + if have[end - 1] {
            1int
        } else {
            0int
        },
        at_hand(have, first, end) <= end - first,
    decreases end - first,
{
    if first < end - 1 {
        law_at_hand(have, first, end - 1);
    }
}

/// Tenths, hundredths and thousandths are shown with one, two and three digits
/// behind the point.
#[verifier::spinoff_prover]
pub proof fn law_decimals(q: nat)
    ensures
        tenths(q) == decimal(q / 10) + "."@ + seq![digit(q as int % 10)],
        hundredths(q) == decimal(q / 100) + "."@ + seq![
            digit(q as int / 10 % 10),
            digit(q as int % 10),
        ],
        thousandths(q) == decimal(q / 1000) + "."@ + seq![
            digit(q as int / 100 % 10),
            digit(q as int / 10 % 10),
            digit(q as int % 10),
        ],
{
    lemma_places(q as int);
    assert(tenths(q) == decimal(q / 10) + "."@ + seq![digit(q as int % 10)]) by {
        lemma_one_digit(q % 10);
    }
    assert(hundredths(q) == decimal(q / 100) + "."@ + seq![
        digit(q as int / 10 % 10),
        digit(q as int % 10),
    ]) by {
        lemma_two_digits(q % 100);
    }
    assert(thousandths(q) == decimal(q / 1000) + "."@ + seq![
        digit(q as int / 100 % 10),
        digit(q as int / 10 % 10),
        digit(q as int % 10),
    ]) by {
        lemma_three_digits(q % 1000);
    }
}

#[verifier::spinoff_prover]
proof fn lemma_places(q: int)
    requires
        0 <= q,
    ensures
        q % 100 / 10 == q / 10 % 10,
        q % 100 % 10 == q % 10,
        q % 1000 / 100 == q / 100 % 10,
        q % 1000 / 10 % 10 == q / 10 % 10,
        q % 1000 % 10 == q % 10,
{
    let (z, y, x) = (q % 10, q / 10 % 10, q / 10 / 10 % 10);
    let w = q / 10 / 10 / 10;
    assert(q == 1000 * w + 100 * x + 10 * y + z);
    assert(q % 100 == 10 * y + z && q / 100 == 10 * w + x);
    assert(q % 1000 == 100 * x + 10 * y + z);
    assert(q % 1000 / 10 == 10 * x + y);
}

proof fn lemma_one_digit(n: nat)
    requires
        n < 10,
    ensures
        decimal(n) == seq![digit(n as int)],
{
    reveal_with_fuel(crate::text::decimal_bytes, 2);
    assert(decimal(n) =~= seq![digit(n as int)]);
}

#[verifier::spinoff_prover]
#[verifier::rlimit(40)]
proof fn lemma_three_digits(n: nat)
    requires
        n < 1000,
    ensures
        three_digits(n) == seq![digit(n as int / 100), digit(n as int / 10 % 10), digit(n as int % 10)],
{
    reveal_strlit("0");
    reveal_strlit("00");
    reveal_with_fuel(crate::text::decimal_bytes, 4);
    assert(three_digits(n) =~= seq![
        digit(n as int / 100),
        digit(n as int / 10 % 10),
        digit(n as int % 10),
    ]);
}

/// A piece is at hand.
pub open spec fn got(have: Seq<bool>, p: int) -> bool {
    0 <= p < have.len() && have[p]
}

/// All pieces of a file are at hand.
pub open spec fn whole(f: FileInfo, piece_length: u64, have: Seq<bool>) -> bool {
    forall|p: int|
        first_piece(f, piece_length) <= p < end_piece(f, piece_length) ==> #[trigger] got(have, p)
}

/// The files that are skipped do not count for the progress, and it is complete
/// once all pieces of the others are at hand.
pub proof fn law_progress(
    files: Seq<FileInfo>,
    priorities: Seq<FilePriority>,
    piece_length: u64,
    have: Seq<bool>,
    n: int,
)
    requires
        0 <= n <= files.len(),
        n <= priorities.len(),
        piece_length > 0,
    ensures
        (forall|i: int| 0 <= i < n ==> #[trigger] priorities[i] == FilePriority::Skip)
            ==> chosen_pieces(files, priorities, piece_length, have, n) == (0int, 0int),
        (forall|i: int|
            0 <= i < n && priorities[i] != FilePriority::Skip ==> whole(
                #[trigger] files[i],
                piece_length,
                have,
            )) ==> chosen_pieces(files, priorities, piece_length, have, n).0 == chosen_pieces(
            files,
            priorities,
            piece_length,
            have,
            n,
        ).1,
        n > 0 && priorities[n - 1] != FilePriority::Skip && files[n - 1].length > 0
            ==> chosen_pieces(files, priorities, piece_length, have, n).1 > chosen_pieces(
            files,
            priorities,
            piece_length,
            have,
            n - 1,
        ).1,
    decreases n,
{
    if n > 0 {
        law_progress(files, priorities, piece_length, have, n - 1);
        let f = files[n - 1];
        let a = first_piece(f, piece_length);
        let b = end_piece(f, piece_length);
        if priorities[n - 1] != FilePriority::Skip && whole(f, piece_length, have) {
            lemma_all_at_hand(have, a, b, f, piece_length);
        }
        if f.length > 0 {
            vstd::arithmetic::div_mod::lemma_div_is_ordered(
                f.offset as int,
                f.offset + f.length - 1,
                piece_length as int,
            );
        }
    }
}

proof fn lemma_all_at_hand(
    have: Seq<bool>,
    first: int,
    end: int,
    f: FileInfo,
    piece_length: u64,
)
    requires
        first == first_piece(f, piece_length),
        end <= end_piece(f, piece_length),
        whole(f, piece_length, have),
    ensures
        at_hand(have, first, end) == if end > first {
            end - first
        } else {
            0
        },
    decreases end - first,
{
    if end > first {
        lemma_all_at_hand(have, first, end - 1, f, piece_length);
        assert(got(have, end - 1));
    }
}

/// The arguments of the program: what does not start with two hyphens is opened,
/// in order.
pub proof fn law_opened(args: Seq<Seq<char>>, i: int)
    requires
        0 <= i <= args.len(),
        forall|k: int|
            i <= k < args.len() ==> !((#[trigger] args[k]).len() >= 2 && args[k][0] == '-'
                && args[k][1] == '-'),
    ensures
        plain_arguments(args, i) == args.skip(i),
    decreases args.len() - i,
{
    if i < args.len() {
        law_opened(args, i + 1);
        reveal_strlit("--download-dir");
        reveal_strlit("--");
        let a = args[i];
        if "--"@.is_prefix_of(a) {
            assert(a.take(2)[0] == "--"@[0] && a.take(2)[1] == "--"@[1]);
        }
        if a == "--download-dir"@ {
            assert(a[0] == '-' && a[1] == '-');
        }
        assert(seq![a] + args.skip(i + 1) =~= args.skip(i));
    } else {
        assert(args.skip(i) =~= seq![]);
    }
}

/// A directory is named behind its option, and neither of the two is opened;
/// without the option none is named.
pub proof fn law_directory_named(args: Seq<Seq<char>>, d: Seq<char>, i: int)
    requires
        0 <= i <= args.len(),
        forall|k: int| i <= k < args.len() ==> (#[trigger] args[k]) != "--download-dir"@,
    ensures
        named_dir(args, i) is None,
        named_dir(args.push("--download-dir"@).push(d), i) == Some(d),
        plain_arguments(args.push("--download-dir"@).push(d), i) == plain_arguments(args, i),
    decreases args.len() - i,
{
    let all = args.push("--download-dir"@).push(d);
    if i < args.len() {
        law_directory_named(args, d, i + 1);
        assert(all[i] == args[i]);
        assert(args[i] != "--download-dir"@);
    } else {
        assert(all[i] == "--download-dir"@);
        assert(all[i + 1] == d);
        assert(named_dir(all, i + 2) is None);
        assert(plain_arguments(all, i + 2) =~= seq![]);
        assert(plain_arguments(args, i) =~= seq![]);
    }
}

/// A path that is written as a URL is the path behind it.
pub proof fn law_path_of_url(path: Seq<char>)
    ensures
        without_prefix("file://"@ + path, "file://"@) == path,
        path.len() > 0 && path[0] == '/' ==> without_prefix(path, "file://"@) == path,
{
    reveal_strlit("file://");
    let s = "file://"@ + path;
    assert(s.take(7) =~= "file://"@);
    assert(s.skip(7) =~= path);
    if "file://"@.is_prefix_of(path) {
        assert(path.take(7)[0] == "file://"@[0]);
    }
}

/// The number of torrents in one of two states is that of those among them.
pub proof fn law_counted(states: Seq<TorrentState>, a: TorrentState, b: TorrentState)
    ensures
        count_in(states, a, b) == states.filter(|s: TorrentState| s == a || s == b).len(),
    decreases states.len(),
{
    reveal(Seq::filter);
    if states.len() > 0 {
        law_counted(states.drop_last(), a, b);
    }
}

/// Who has sent more than was received has a ratio of at least one, and who has
/// sent less one of at most one.
pub proof fn law_ratio(uploaded: int, downloaded: int, text: Seq<char>)
    requires
        ratio_text(uploaded, downloaded, text),
        0 <= uploaded < 0x20_0000_0000_0000,
        0 <= downloaded < 0x20_0000_0000_0000,
    ensures
        uploaded == 0 ==> text == "0.000"@,
        uploaded > 0 && downloaded == 0 ==> text == "\u{221e}"@,
        uploaded > 0 && downloaded > 0 ==> exists|q: int|
            #![trigger thousandths(q as nat)]
            q >= 0 && text == thousandths(q as nat) && (uploaded >= downloaded ==> q >= 1000) && (
            uploaded <= downloaded ==> q <= 1000),
{
    if uploaded > 0 && downloaded > 0 {
        let (a, b) = (uploaded, downloaded);
        assert(double_unit(a, 1) == 1 && double_unit(b, 1) == 1);
        assert(double_of(a) == a && double_of(b) == b);
        let (m, p, d) = choose|m: int, p: int, d: int|
            #[trigger] double_quotient(a, b, m, p, d) && text == thousandths(
                nearest(m * d * 1000, p) as nat,
            );
        assert(p >= 1 && d >= 1);
        let q = nearest(m * d * 1000, p);
        assert(b * d >= 1) by (nonlinear_arith)
            requires
                b >= 1,
                d >= 1,
        ;
        assert(a * p >= 1) by (nonlinear_arith)
            requires
                a >= 1,
                p >= 1,
        ;
        lemma_nearest_at_least(a * p, b * d, 0x10_0000_0000_0000);
        assert(m * d >= 1) by (nonlinear_arith)
            requires
                m >= 1,
                d >= 1,
        ;
        lemma_nearest_at_least(m * d * 1000, p, 0);
        if a >= b {
            if d == 1 {
                assert(p * b <= a * p) by (nonlinear_arith)
                    requires
                        a >= b,
                        p >= 1,
                ;
                lemma_nearest_at_least(a * p, b * d, p);
            }
            assert(m * d >= p);
            lemma_nearest_at_least(m * d * 1000, p, 1000);
        }
        if a <= b {
            if d != 1 {
                assert(b * d * 0x10_0000_0000_0000 > a) by (nonlinear_arith)
                    requires
                        a <= b,
                        b >= 1,
                        d >= 1,
                ;
            }
            assert(d == 1);
            assert(p * b >= a * p) by (nonlinear_arith)
                requires
                    a <= b,
                    p >= 1,
            ;
            lemma_nearest_at_most(a * p, b, p);
            lemma_nearest_at_most(m * 1000, p, 1000);
        }
        assert(text == thousandths(q as nat));
    }
}

proof fn lemma_nearest_at_least(num: int, den: int, k: int)
    requires
        den > 0,
        k * den <= num,
    ensures
        nearest(num, den) >= k,
{
    vstd::arithmetic::div_mod::lemma_fundamental_div_mod(num, den);
    let q = num / den;
    assert(q >= k) by (nonlinear_arith)
        requires
            den > 0,
            k * den <= num,
            num == den * q + num % den,
            0 <= num % den < den,
    ;
}

proof fn lemma_nearest_at_most(num: int, den: int, k: int)
    requires
        den > 0,
        k * den >= num,
    ensures
        nearest(num, den) <= k,
{
    vstd::arithmetic::div_mod::lemma_fundamental_div_mod(num, den);
    let q = num / den;
    assert(q <= k) by (nonlinear_arith)
        requires
            den > 0,
            k * den >= num,
            num == den * q + num % den,
            0 <= num % den < den,
    ;
    assert(q == k ==> num % den == 0) by (nonlinear_arith)
        requires
            den > 0,
            k * den >= num,
            num == den * q + num % den,
            0 <= num % den < den,
    ;
}

/// A torrent that comes up in the dialog has all of its files checked, and goes
/// where it suggests; once none waits, there is nothing to check.
pub proof fn law_all_checked(d: AddDialog)
    requires
        d.wf(),
        d.untouched(),
    ensures
        d.queue@.len() > 0 ==> d.checks@.len() == d.queue@[0].files@.len() && d.path@
            == d.queue@[0].suggested_dir@,
        d.queue@.len() == 0 ==> d.checks@.len() == 0 && d.path@.len() == 0,
        forall|i: int| 0 <= i < d.checks@.len() ==> #[trigger] d.checks@[i],
{
}

} // verus!
