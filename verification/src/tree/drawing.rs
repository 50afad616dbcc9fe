//! A tree drawn as text, for looking at while debugging.

use super::VanEmdeBoas;
use vstd::prelude::*;
use vstd::string::*;

verus! {

/// Switches a terminal to faint text.
pub const DIM: &'static str = "\x1b[;2m";

/// Switches a terminal to red text.
pub const RED: &'static str = "\x1b[;31m";

/// Switches a terminal to green text.
pub const GREEN: &'static str = "\x1b[;32m";

/// Switches a terminal back to plain text.
pub const RESET: &'static str = "\x1b[;0m";

/// The character for a digit `d` below ten.
pub open spec fn digit(d: nat) -> char {
    if d == 0 {
        '0'
    } else if d == 1 {
        '1'
    } else if d == 2 {
        '2'
    } else if d == 3 {
        '3'
    } else if d == 4 {
        '4'
    } else if d == 5 {
        '5'
    } else if d == 6 {
        '6'
    } else if d == 7 {
        '7'
    } else if d == 8 {
        '8'
    } else {
        '9'
    }
}

/// `n` written in decimal, without leading zeros.
pub open spec fn decimal(n: nat) -> Seq<char>
    decreases n,
{
    if n < 10 {
        seq![digit(n)]
    } else {
        decimal(n / 10).push(digit(n % 10))
    }
}

/// `n` written in binary, without leading zeros.
pub open spec fn binary(n: nat) -> Seq<char>
    decreases n,
{
    if n < 2 {
        seq![digit(n)]
    } else {
        binary(n / 2).push(digit(n % 2))
    }
}

/// The label of cluster `i`: its number in binary, with at least two digits.
pub open spec fn cluster_tag(i: nat) -> Seq<char> {
    if i < 2 {
        seq!['0'] + binary(i)
    } else {
        binary(i)
    }
}

fn digit_text(d: usize) -> (text: &'static str)
    requires
        d < 10,
    ensures
        text@ == seq![digit(d as nat)],
{
    proof {
        reveal_strlit("0");
        reveal_strlit("1");
        reveal_strlit("2");
        reveal_strlit("3");
        reveal_strlit("4");
        reveal_strlit("5");
        reveal_strlit("6");
        reveal_strlit("7");
        reveal_strlit("8");
        reveal_strlit("9");
    }
    let text = if d == 0 {
        "0"
    } else if d == 1 {
        "1"
    } else if d == 2 {
        "2"
    } else if d == 3 {
        "3"
    } else if d == 4 {
        "4"
    } else if d == 5 {
        "5"
    } else if d == 6 {
        "6"
    } else if d == 7 {
        "7"
    } else if d == 8 {
        "8"
    } else {
        "9"
    };
    assert(text@ =~= seq![digit(d as nat)]);
    text
}

fn append_decimal(out: &mut String, n: usize)
    ensures
        final(out)@ == old(out)@ + decimal(n as nat),
    decreases n,
{
    if n >= 10 {
        append_decimal(out, n / 10);
    }
    let ghost front = out@;
    out.append(digit_text(n % 10));
    assert(out@ =~= old(out)@ + decimal(n as nat)) by {
        assert(out@ == front + seq![digit((n % 10) as nat)]);
        if n >= 10 {
            assert(front == old(out)@ + decimal((n / 10) as nat));
        }
    }
}

fn append_binary(out: &mut String, n: usize)
    ensures
        final(out)@ == old(out)@ + binary(n as nat),
    decreases n,
{
    if n >= 2 {
        append_binary(out, n / 2);
    }
    let ghost front = out@;
    out.append(digit_text(n % 2));
    assert(out@ =~= old(out)@ + binary(n as nat)) by {
        assert(out@ == front + seq![digit((n % 2) as nat)]);
        if n >= 2 {
            assert(front == old(out)@ + binary((n / 2) as nat));
        }
    }
}

impl VanEmdeBoas {
    /// `out` with the line of a node behind it: the bounds and the size of
    /// the universe.
    spec fn line_onto(out: Seq<char>, min: nat, max: nat, universe: nat) -> Seq<char> {
        out + DIM@ + "─►"@ + RESET@ + " "@ + RED@ + decimal(min) + "⮯ "@ + GREEN@ + decimal(max)
            + "⮭ "@ + DIM@ + "("@ + decimal(universe) + ")"@ + RESET@ + "\n"@
    }

    /// `out` with the drawing of this tree behind it. An empty tree is an
    /// empty line; another is its own line, then the summary under the tag
    /// `su`, then the clusters, each under its number. Every line below
    /// starts with `prefix`.
    pub closed spec fn drawn_onto(&self, out: Seq<char>, prefix: Seq<char>) -> Seq<char>
        decreases self, 1nat, 0nat,
    {
        match self.bounds {
            None => out + "\n"@,
            Some((min, max)) => {
                let line = Self::line_onto(
                    out,
                    min as nat,
                    max as nat,
                    self.universe_size as nat,
                );
                let with_summary = match self.summary {
                    Some(summary) => summary.branch_onto(
                        line,
                        prefix,
                        "su"@,
                        self.clusters.len() > 0,
                    ),
                    None => line,
                };
                self.clusters_onto(with_summary, prefix, 0)
            },
        }
    }

    /// `out` with the drawings of the clusters from number `from` on behind it.
    spec fn clusters_onto(&self, out: Seq<char>, prefix: Seq<char>, from: nat) -> Seq<
        char,
    >
        decreases self, 0nat, self.clusters.len() - from,
    {
        if from >= self.clusters.len() {
            out
        } else {
            self.clusters_onto(
                self.clusters[from as int].branch_onto(
                    out,
                    prefix,
                    cluster_tag(from),
                    from < self.clusters.len() - 1,
                ),
                prefix,
                from + 1,
            )
        }
    }

    /// `out` with this tree behind it as a branch of its parent: the
    /// prefix, a connector, the tag, and the drawing of the tree, whose own
    /// branches stand further in. `more` says that another branch follows.
    spec fn branch_onto(
        &self,
        out: Seq<char>,
        prefix: Seq<char>,
        tag: Seq<char>,
        more: bool,
    ) -> Seq<char>
        decreases self, 2nat, 0nat,
    {
        if more {
            self.drawn_onto(out + DIM@ + prefix + "├─"@ + RESET@ + tag, prefix + "│      "@)
        } else {
            self.drawn_onto(out + DIM@ + prefix + "╰─"@ + RESET@ + tag, prefix + "       "@)
        }
    }

    /// The tree drawn as text, for a terminal that knows colours.
    pub fn print(&self) -> (text: String)
        ensures
            text@ == self.drawn_onto(Seq::empty(), "   "@),
    {
        let mut text = String::new();
        self.print_tree("   ", &mut text);
        text
    }

    fn print_tree(&self, prefix: &str, out: &mut String)
        ensures
            final(out)@ == self.drawn_onto(old(out)@, prefix@),
        decreases self, 1nat,
    {
        let (min, max) = match self.bounds {
            None => {
                out.append("\n");
                return ;
            },
            Some(bounds) => bounds,
        };
        out.append(DIM);
        out.append("─►");
        out.append(RESET);
        out.append(" ");
        out.append(RED);
        append_decimal(out, min);
        out.append("⮯ ");
        out.append(GREEN);
        append_decimal(out, max);
        out.append("⮭ ");
        out.append(DIM);
        out.append("(");
        append_decimal(out, self.universe_size);
        out.append(")");
        out.append(RESET);
        out.append("\n");
        let count = self.clusters.len();
        if let Some(summary) = &self.summary {
            summary.print_sub(prefix, "su", count > 0, out);
        }
        let ghost start = out@;
        let mut i: usize = 0;
        while i < count
            invariant
                i <= count,
                count == self.clusters.len(),
                self.clusters_onto(out@, prefix@, i as nat) == self.clusters_onto(
                    start,
                    prefix@,
                    0,
                ),
            decreases count - i,
        {
            let mut tag = String::new();
            if i < 2 {
                append_zero(&mut tag);
            }
            append_binary(&mut tag, i);
            self.clusters[i].print_sub(prefix, tag.as_str(), i < count - 1, out);
            i += 1;
        }
    }

    fn print_sub(&self, prefix: &str, tag: &str, is_last: bool, out: &mut String)
        ensures
            final(out)@ == self.branch_onto(old(out)@, prefix@, tag@, is_last),
        decreases self, 2nat,
    {
        let (b, a) = if is_last {
            ("│      ", "├─")
        } else {
            ("       ", "╰─")
        };
        out.append(DIM);
        out.append(prefix);
        out.append(a);
        out.append(RESET);
        out.append(tag);
        let mut deeper = String::from_str(prefix);
        deeper.append(b);
        self.print_tree(deeper.as_str(), out);
    }
}

fn append_zero(tag: &mut String)
    ensures
        final(tag)@ == old(tag)@ + seq!['0'],
{
    proof {
        reveal_strlit("0");
    }
    tag.append("0");
    assert(tag@ =~= old(tag)@ + seq!['0']);
}

} // verus!
