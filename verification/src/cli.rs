//! The decisions behind the command line: how the patterns combine, which
//! case mode, layers, output mode, color and context rows apply, how many
//! workers run, and how many matches were found.

use vstd::prelude::*;

use crate::cell::{decimal, push_decimal};
use crate::config::{cached_bit, comment_bit, display_bit, formula_bit, ColorChoice, LayerSet, OutputMode};
use crate::matcher::CaseMode;
use crate::{event_views, ContextOptions, EventView, FileBlock, MatchEvent};
use crate::printer::match_count;

verus! {

/// The largest number of context rows `-A`, `-B` and `-C` accept.
pub const MAX_CONTEXT: u32 = 10000;

/// The first `n` patterns as `(?:p0)|(?:p1)|...`, without the final `)`.
pub open spec fn alternation(ps: Seq<Seq<char>>, n: int) -> Seq<char>
    decreases n,
{
    if n <= 1 {
        seq!['(', '?', ':'] + ps[0]
    } else {
        alternation(ps, n - 1) + seq![')', '|', '(', '?', ':'] + ps[n - 1]
    }
}

/// The pattern searched for: none without patterns, the pattern itself
/// when there is one, else every pattern as an alternative.
pub open spec fn joined_pattern(ps: Seq<Seq<char>>) -> Option<Seq<char>> {
    if ps.len() == 0 {
        None
    } else if ps.len() == 1 {
        Some(ps[0])
    } else {
        Some(alternation(ps, ps.len() as int) + seq![')'])
    }
}

/// Combine the `-e` patterns and the positional pattern (in that order)
/// into one regex: `(?:a)|(?:b)` for several.
pub fn join_patterns(patterns: &Vec<String>) -> (r: Option<String>)
    ensures
        match joined_pattern(patterns@.map_values(|p: String| p@)) {
            Some(j) => r matches Some(s) && s@ == j,
            None => r is None,
        },
{
    let ghost ps = patterns@.map_values(|p: String| p@);
    if patterns.len() == 0 {
        return None;
    }
    if patterns.len() == 1 {
        return Some(patterns[0].clone());
    }
    let mut out = String::new();
    out.push('(');
    out.push('?');
    out.push(':');
    out.append(patterns[0].as_str());
    assert(out@ =~= alternation(ps, 1));
    let mut k: usize = 1;
    while k < patterns.len()
        invariant
            1 <= k <= patterns@.len(),
            ps == patterns@.map_values(|p: String| p@),
            out@ == alternation(ps, k as int),
        decreases patterns@.len() - k,
    {
        out.push(')');
        out.push('|');
        out.push('(');
        out.push('?');
        out.push(':');
        out.append(patterns[k].as_str());
        assert(out@ =~= alternation(ps, k + 1));
        k = k + 1;
    }
    out.push(')');
    assert(out@ =~= alternation(ps, ps.len() as int) + seq![')']);
    Some(out)
}

/// `-i` forces case-insensitive, else `-s` forces case-sensitive, else
/// smart case.
pub fn case_mode(ignore_case: bool, case_sensitive: bool) -> (r: CaseMode)
    ensures
        r == if ignore_case {
            CaseMode::Insensitive
        } else if case_sensitive {
            CaseMode::Sensitive
        } else {
            CaseMode::Smart
        },
{
    if ignore_case {
        CaseMode::Insensitive
    } else if case_sensitive {
        CaseMode::Sensitive
    } else {
        CaseMode::Smart
    }
}

/// The layers searched: display and cached always, comments unless
/// `--no-comments`, formula text with `--formula`.
pub fn layers_for(no_comments: bool, formula: bool) -> (r: LayerSet)
    ensures
        r.has(display_bit()),
        r.has(cached_bit()),
        r.has(comment_bit()) == !no_comments,
        r.has(formula_bit()) == formula,
{
    let mut layers = LayerSet::display().union(LayerSet::cached());
    if !no_comments {
        layers.insert(LayerSet::comment());
    }
    if formula {
        layers.insert(LayerSet::formula());
    }
    proof {
        assert(1u8 | 2u8 == 3u8) by (bit_vector);
        if no_comments {
            if formula {
                assert(3u8 | 8u8 == 11u8) by (bit_vector);
                assert(11u8 & 1u8 == 1u8 && 11u8 & 2u8 == 2u8 && 11u8 & 4u8 != 4u8 && 11u8 & 8u8 == 8u8) by (bit_vector);
            } else {
                assert(3u8 & 1u8 == 1u8 && 3u8 & 2u8 == 2u8 && 3u8 & 4u8 != 4u8 && 3u8 & 8u8 != 8u8) by (bit_vector);
            }
        } else {
            assert(3u8 | 4u8 == 7u8) by (bit_vector);
            if formula {
                assert(7u8 | 8u8 == 15u8) by (bit_vector);
                assert(15u8 & 1u8 == 1u8 && 15u8 & 2u8 == 2u8 && 15u8 & 4u8 == 4u8 && 15u8 & 8u8 == 8u8) by (bit_vector);
            } else {
                assert(7u8 & 1u8 == 1u8 && 7u8 & 2u8 == 2u8 && 7u8 & 4u8 == 4u8 && 7u8 & 8u8 != 8u8) by (bit_vector);
            }
        }
    }
    layers
}

/// `--json` wins over `-c`, which wins over `-l`; pretty otherwise.
pub fn output_mode(json: bool, count: bool, files_with_matches: bool) -> (r: OutputMode)
    ensures
        r == if json {
            OutputMode::Json
        } else if count {
            OutputMode::CountOnly
        } else if files_with_matches {
            OutputMode::FilesOnly
        } else {
            OutputMode::Pretty
        },
{
    if json {
        OutputMode::Json
    } else if count {
        OutputMode::CountOnly
    } else if files_with_matches {
        OutputMode::FilesOnly
    } else {
        OutputMode::Pretty
    }
}

/// `--color auto` colors only a terminal; `always` and `never` stand.
pub fn effective_color(choice: ColorChoice, stdout_is_terminal: bool) -> (r: ColorChoice)
    ensures
        r == match choice {
            ColorChoice::Auto => if stdout_is_terminal {
                ColorChoice::Always
            } else {
                ColorChoice::Never
            },
            c => c,
        },
{
    match choice {
        ColorChoice::Auto => if stdout_is_terminal {
            ColorChoice::Always
        } else {
            ColorChoice::Never
        },
        c => c,
    }
}

/// The context rows before and after: `-B`/`-A` when given, else `-C`,
/// else none.
pub open spec fn chosen_context(after: Option<u32>, before: Option<u32>, context: Option<u32>) -> ContextOptions {
    let c = match context {
        Some(n) => n,
        None => 0,
    };
    ContextOptions {
        before: match before {
            Some(n) => n,
            None => c,
        },
        after: match after {
            Some(n) => n,
            None => c,
        },
    }
}

/// The message refusing a context value above the limit.
pub open spec fn context_limit_message(n: u32) -> Seq<char> {
    seq!['c', 'o', 'n', 't', 'e', 'x', 't', ' ', 'v', 'a', 'l', 'u', 'e', ' '] + decimal(n as nat) + seq![' ', 'e',
        'x', 'c', 'e', 'e', 'd', 's', ' ', 't', 'h', 'e', ' ', 'm', 'a', 'x', 'i', 'm', 'u', 'm', ' ', 'o', 'f', ' ']
        + decimal(MAX_CONTEXT as nat)
}

/// The first of `-A`, `-B`, `-C` (in that order) above the limit.
pub open spec fn over_limit(after: Option<u32>, before: Option<u32>, context: Option<u32>) -> Option<u32> {
    match (after, before, context) {
        (Some(a), _, _) if a > MAX_CONTEXT => Some(a),
        (_, Some(b), _) if b > MAX_CONTEXT => Some(b),
        (_, _, Some(c)) if c > MAX_CONTEXT => Some(c),
        _ => None,
    }
}

fn limit_message(n: u32) -> (r: String)
    ensures
        r@ == context_limit_message(n),
{
    proof {
        reveal_strlit("context value ");
        reveal_strlit(" exceeds the maximum of ");
        assert("context value "@ =~= seq!['c', 'o', 'n', 't', 'e', 'x', 't', ' ', 'v', 'a', 'l', 'u', 'e', ' ']);
        assert(" exceeds the maximum of "@ =~= seq![' ', 'e', 'x', 'c', 'e', 'e', 'd', 's', ' ', 't', 'h', 'e', ' ', 'm',
            'a', 'x', 'i', 'm', 'u', 'm', ' ', 'o', 'f', ' ']);
    }
    let mut s = "context value ".to_owned();
    push_decimal(&mut s, n as u128);
    s.append(" exceeds the maximum of ");
    push_decimal(&mut s, MAX_CONTEXT as u128);
    s
}

/// The context rows `-A`, `-B` and `-C` ask for, refused with a message
/// when one of them exceeds `MAX_CONTEXT`.
pub fn context_options(after: Option<u32>, before: Option<u32>, context: Option<u32>) -> (r: Result<ContextOptions, String>)
    ensures
        match over_limit(after, before, context) {
            Some(n) => r matches Err(m) && m@ == context_limit_message(n),
            None => r == Ok::<ContextOptions, String>(chosen_context(after, before, context)),
        },
{
    if let Some(a) = after {
        if a > MAX_CONTEXT {
            return Err(limit_message(a));
        }
    }
    if let Some(b) = before {
        if b > MAX_CONTEXT {
            return Err(limit_message(b));
        }
    }
    if let Some(c) = context {
        if c > MAX_CONTEXT {
            return Err(limit_message(c));
        }
    }
    let c = match context {
        Some(n) => n,
        None => 0,
    };
    let before = match before {
        Some(n) => n,
        None => c,
    };
    let after = match after {
        Some(n) => n,
        None => c,
    };
    Ok(ContextOptions { before, after })
}

/// Worker threads: the requested number, or (for 0) the available
/// parallelism, at least 1.
pub fn worker_threads(requested: usize, available: usize) -> (r: usize)
    ensures
        r == if requested == 0 {
            if available == 0 {
                1
            } else {
                available
            }
        } else {
            requested
        },
{
    if requested == 0 {
        if available == 0 {
            1
        } else {
            available
        }
    } else {
        requested
    }
}

/// The number of Match events over the first `n` blocks.
pub open spec fn blocks_matches(blocks: Seq<FileBlock>, n: int) -> nat
    decreases n,
{
    if n <= 0 {
        0
    } else {
        blocks_matches(blocks, n - 1) + match_count(blocks[n - 1]@, blocks[n - 1]@.len() as int)
    }
}

/// The number of Match events in all blocks (saturating at `u64::MAX`):
/// what the exit code is decided on.
pub fn total_matches(blocks: &Vec<FileBlock>) -> (r: u64)
    ensures
        r == if blocks_matches(blocks@, blocks@.len() as int) <= u64::MAX {
            blocks_matches(blocks@, blocks@.len() as int)
        } else {
            u64::MAX as nat
        },
{
    let mut total: u128 = 0;
    let mut b: usize = 0;
    while b < blocks.len()
        invariant
            b <= blocks@.len(),
            total == if blocks_matches(blocks@, b as int) <= u64::MAX {
                blocks_matches(blocks@, b as int)
            } else {
                u64::MAX as nat + 1
            },
        decreases blocks@.len() - b,
    {
        let block = &blocks[b];
        let mut n: u64 = 0;
        let mut k: usize = 0;
        while k < block.events.len()
            invariant
                k <= block.events@.len(),
                n == match_count(block@, k as int),
                n <= k,
            decreases block.events@.len() - k,
        {
            assert(block@[k as int] == block.events@[k as int]@);
            if let MatchEvent::Match { .. } = &block.events[k] {
                n = n + 1;
            }
            k = k + 1;
        }
        let next = total + (n as u128);
        total = if next > (u64::MAX as u128) {
            (u64::MAX as u128) + 1
        } else {
            next
        };
        b = b + 1;
    }
    if total > (u64::MAX as u128) {
        u64::MAX
    } else {
        total as u64
    }
}

} // verus!
