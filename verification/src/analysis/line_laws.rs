//! How the lines of a histogram are laid out.
use crate::analysis::histogram::{
    bin_line, greatest, histogram_lines, padded, stars, Bins, HistogramASCII,
};
use crate::text::{self, decimal};
use vstd::prelude::*;

verus! {

/// The text shows the number: its numeral comes first, and all behind it is blank.
pub open spec fn shows(text: Seq<char>, n: int) -> bool {
    &&& decimal(n as nat).len() <= text.len()
    &&& text.take(decimal(n as nat).len() as int) == decimal(n as nat)
    &&& forall|i: int| decimal(n as nat).len() <= i < text.len() ==> #[trigger] text[i] == ' '
}

/// A greater number has no fewer digits.
pub proof fn digits_grow(a: nat, b: nat)
    requires
        a <= b,
    ensures
        decimal(a).len() <= decimal(b).len(),
        decimal(a).len() > 0,
    decreases b,
{
    text::decimal_digits(a);
    if a >= 10 {
        digits_grow(a / 10, b / 10);
    } else if b >= 10 {
        text::decimal_digits(b / 10);
    }
}

proof fn padded_shows(n: nat, width: int)
    requires
        decimal(n).len() <= width,
    ensures
        padded(decimal(n), width).len() == width,
        shows(padded(decimal(n), width), n as int),
{
    let text = padded(decimal(n), width);
    assert(text.take(decimal(n).len() as int) =~= decimal(n));
}

/// The widest number that a bound can be, and the widest count.
pub open spec fn bound_width(bins: Bins) -> int {
    decimal((bins.start + bins.step * bins.counts@.len()) as nat).len() as int
}

pub open spec fn count_width(bins: Bins) -> int {
    decimal(greatest(bins.counts@) as nat).len() as int
}

/// In the line of a bin stand, each in its column, the bounds of the bin and its count; then stars,
/// fifty for the greatest count and for the others in proportion. The columns are the same in all
/// lines.
pub proof fn lines_have_columns(bins: Bins, bin: int)
    requires
        0 <= bin < bins.counts@.len(),
        greatest(bins.counts@) > 0,
        forall|i: int|
            0 <= i < bins.counts@.len() ==> #[trigger] bins.counts@[i] <= greatest(bins.counts@),
    ensures
        ({
            let line = bin_line(bins, bin);
            let (w, v) = (bound_width(bins), count_width(bins));
            let count = bins.counts@[bin];
            &&& line.len() == 10 + 2 * w + v + 50 * count / greatest(bins.counts@) as int
            &&& line[0] == '['
            &&& shows(line.subrange(1, 1 + w), bins.start + bin * bins.step)
            &&& line[1 + w] == ',' && line[2 + w] == ' '
            &&& shows(line.subrange(3 + w, 3 + 2 * w), bins.start + (bin + 1) * bins.step)
            &&& line[3 + 2 * w] == ']' && line[4 + 2 * w] == ' ' && line[5 + 2 * w] == '|'
                && line[6 + 2 * w] == ' '
            &&& shows(line.subrange(7 + 2 * w, 7 + 2 * w + v), count as int)
            &&& line[7 + 2 * w + v] == ' ' && line[8 + 2 * w + v] == ':' && line[9 + 2 * w + v]
                == ' '
            &&& forall|i: int| 10 + 2 * w + v <= i < line.len() ==> #[trigger] line[i] == '*'
        }),
{
    reveal_strlit("[");
    reveal_strlit(", ");
    reveal_strlit("] | ");
    reveal_strlit(" : ");
    let (w, v) = (bound_width(bins), count_width(bins));
    let count = bins.counts@[bin];
    let s = bins.step as int;
    let n = bins.counts@.len() as int;
    assert(0 <= bin * s) by (nonlinear_arith)
        requires
            bin >= 0,
            s >= 0,
    ;
    assert(bin * s <= (bin + 1) * s <= s * n) by (nonlinear_arith)
        requires
            0 <= bin,
            bin + 1 <= n,
            s >= 0,
    ;
    let from = (bins.start + bin * s) as nat;
    let to = (bins.start + (bin + 1) * s) as nat;
    let most = (bins.start + s * n) as nat;
    digits_grow(from, most);
    digits_grow(to, most);
    digits_grow(count as nat, greatest(bins.counts@) as nat);
    padded_shows(from, w);
    padded_shows(to, w);
    padded_shows(count as nat, v);
    let a = padded(decimal(from), w);
    let b = padded(decimal(to), w);
    let c = padded(decimal(count as nat), v);
    let bar = stars(count, greatest(bins.counts@));
    let line = bin_line(bins, bin);
    assert(line == "["@ + a + ", "@ + b + "] | "@ + c + " : "@ + bar);
    let g = greatest(bins.counts@) as int;
    vstd::arithmetic::div_mod::lemma_div_pos_is_pos(50 * count, g);
    assert(line.subrange(1, 1 + w) =~= a);
    assert(line.subrange(3 + w, 3 + 2 * w) =~= b);
    assert(line.subrange(7 + 2 * w, 7 + 2 * w + v) =~= c);
}

/// A histogram has a title, a line with the quartiles, an empty one, and then a line for each bin in
/// turn.
pub proof fn histogram_has_a_line_for_each_bin(histogram: HistogramASCII)
    ensures
        ({
            let lines = histogram_lines(histogram);
            &&& lines.len() == 3 + histogram.bins.counts@.len()
            &&& lines[0] == "---  "@ + histogram.name@ + "  ---"@
            &&& lines[1] == histogram.quartiles.text()
            &&& lines[2].len() == 0
            &&& forall|bin: int|
                0 <= bin < histogram.bins.counts@.len() ==> #[trigger] lines[bin + 3] == bin_line(
                    histogram.bins,
                    bin,
                )
        }),
{
}

} // verus!
