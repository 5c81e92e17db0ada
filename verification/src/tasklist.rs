//! Reading the process list that `tasklist /FO CSV /NH` prints, to find the
//! terminal processes "Restart Terminals" kills.
//!
//! Each line of that output reads `"name","pid","session","session#","mem"`.
use vstd::prelude::*;

use crate::text::{decimal, digit_value, lemma_decimal_digits, lemma_decimal_parses, parse_unsigned, parse_unsigned_chars, text_chars};

verus! {

/// The pieces of `s` between occurrences of `sep`, as `str::split` gives
/// them: one more piece than there are separators.
pub open spec fn split_on(s: Seq<char>, sep: char) -> Seq<Seq<char>>
    decreases s.len(),
{
    if s.len() == 0 {
        seq![Seq::<char>::empty()]
    } else {
        let before = split_on(s.drop_last(), sep);
        if s.last() == sep {
            before.push(Seq::<char>::empty())
        } else {
            before.update(before.len() - 1, before.last().push(s.last()))
        }
    }
}

/// A line without the `\r` of a `\r\n` ending.
pub open spec fn strip_cr(line: Seq<char>) -> Seq<char> {
    if line.len() > 0 && line.last() == '\r' {
        line.drop_last()
    } else {
        line
    }
}

/// The lines of a text, as `str::lines` gives them: split at `\n`, a `\r`
/// before the `\n` dropped, and no empty last line for a text that ends
/// with a line ending.
pub open spec fn text_lines(s: Seq<char>) -> Seq<Seq<char>> {
    let parts = split_on(s, '\n');
    let ended = parts.drop_last().map_values(|p: Seq<char>| strip_cr(p));
    if parts.last().len() == 0 {
        ended
    } else {
        ended.push(parts.last())
    }
}

/// Whether `needle` occurs in `hay`.
pub open spec fn contains_text(hay: Seq<char>, needle: Seq<char>) -> bool {
    exists|i: int| 0 <= i && i + needle.len() <= hay.len() && #[trigger] hay.subrange(i, i + needle.len()) == needle
}

/// `s` without leading `"` characters.
pub open spec fn trim_leading_quotes(s: Seq<char>) -> Seq<char>
    decreases s.len(),
{
    if s.len() > 0 && s[0] == '"' {
        trim_leading_quotes(s.drop_first())
    } else {
        s
    }
}

/// `s` without trailing `"` characters.
pub open spec fn trim_trailing_quotes(s: Seq<char>) -> Seq<char>
    decreases s.len(),
{
    if s.len() > 0 && s.last() == '"' {
        trim_trailing_quotes(s.drop_last())
    } else {
        s
    }
}

/// `s` without leading and trailing `"`, as `trim_matches('"')` gives it.
pub open spec fn trim_quotes(s: Seq<char>) -> Seq<char> {
    trim_trailing_quotes(trim_leading_quotes(s))
}

/// The value of `s` as `str::parse::<u32>` reads it.
pub open spec fn parse_u32(s: Seq<char>) -> Option<u32> {
    match parse_unsigned(s, u32::MAX as nat) {
        Some(v) => Some(v as u32),
        None => None,
    }
}

/// The PID a process-list line gives, when the line mentions `image`: the
/// second comma-separated field, without its quotes.
pub open spec fn listed_pid(line: Seq<char>, image: Seq<char>) -> Option<u32> {
    if !contains_text(line, image) {
        None
    } else {
        let fields = split_on(line, ',');
        if fields.len() < 2 {
            None
        } else {
            parse_u32(trim_quotes(fields[1]))
        }
    }
}

/// The PIDs to kill, in line order: those listed on lines that mention
/// `image`, except our own.
pub open spec fn pids_to_kill_in(lines: Seq<Seq<char>>, image: Seq<char>, own_pid: u32) -> Seq<u32>
    decreases lines.len(),
{
    if lines.len() == 0 {
        Seq::empty()
    } else {
        let before = pids_to_kill_in(lines.drop_last(), image, own_pid);
        match listed_pid(lines.last(), image) {
            Some(pid) => if pid != own_pid {
                before.push(pid)
            } else {
                before
            },
            None => before,
        }
    }
}

} // verus!

verus! {

/// The views of a list of character vectors.
pub open spec fn char_views(v: Seq<Vec<char>>) -> Seq<Seq<char>> {
    v.map_values(|x: Vec<char>| x@)
}

fn split_chars(s: &Vec<char>, sep: char) -> (parts: Vec<Vec<char>>)
    ensures
        char_views(parts@) == split_on(s@, sep),
{
    let mut parts: Vec<Vec<char>> = Vec::new();
    parts.push(Vec::new());
    assert(char_views(parts@) =~= split_on(s@.take(0), sep));
    let mut i: usize = 0;
    while i < s.len()
        invariant
            i <= s@.len(),
            parts@.len() >= 1,
            char_views(parts@) == split_on(s@.take(i as int), sep),
        decreases s@.len() - i,
    {
        let c = s[i];
        let ghost before = char_views(parts@);
        assert(s@.take(i + 1).drop_last() =~= s@.take(i as int));
        assert(s@.take(i + 1).last() == c);
        if c == sep {
            parts.push(Vec::new());
            assert(char_views(parts@) =~= before.push(Seq::<char>::empty()));
        } else {
            let last = parts.len() - 1;
            parts[last].push(c);
            assert(char_views(parts@) =~= before.update(before.len() - 1, before.last().push(c)));
        }
        i = i + 1;
    }
    assert(s@.take(s@.len() as int) =~= s@);
    parts
}

fn lines_of(text: &Vec<char>) -> (lines: Vec<Vec<char>>)
    ensures
        char_views(lines@) == text_lines(text@),
{
    let parts = split_chars(text, '\n');
    let ghost pv = char_views(parts@);
    proof {
        assert(pv.len() >= 1) by {
            lemma_split_on_nonempty(text@, '\n');
        }
    }
    let n = parts.len();
    let mut lines: Vec<Vec<char>> = Vec::new();
    let mut i: usize = 0;
    while i + 1 < n
        invariant
            n == parts@.len(),
            n >= 1,
            pv == char_views(parts@),
            i + 1 <= n,
            char_views(lines@) == pv.drop_last().take(i as int).map_values(|p: Seq<char>| strip_cr(p)),
        decreases n - i,
    {
        let part = &parts[i];
        let mut line: Vec<char> = Vec::new();
        let len = part.len();
        let keep = if len > 0 && part[len - 1] == '\r' {
            len - 1
        } else {
            len
        };
        let mut k: usize = 0;
        while k < keep
            invariant
                keep <= part@.len(),
                k <= keep,
                line@ == part@.take(k as int),
            decreases keep - k,
        {
            line.push(part[k]);
            assert(part@.take(k + 1) =~= part@.take(k as int).push(part@[k as int]));
            k = k + 1;
        }
        assert(line@ =~= strip_cr(part@));
        assert(pv[i as int] == part@);
        let ghost before_lines = char_views(lines@);
        lines.push(line);
        assert(char_views(lines@) =~= before_lines.push(strip_cr(pv[i as int])));
        assert(pv.drop_last().take(i + 1) =~= pv.drop_last().take(i as int).push(pv[i as int]));
        assert(char_views(lines@) =~= pv.drop_last().take(i + 1).map_values(|p: Seq<char>| strip_cr(p)));
        i = i + 1;
    }
    assert(pv.drop_last().take(i as int) =~= pv.drop_last());
    let last = &parts[n - 1];
    if last.len() > 0 {
        let mut copy: Vec<char> = Vec::new();
        let mut k: usize = 0;
        while k < last.len()
            invariant
                k <= last@.len(),
                copy@ == last@.take(k as int),
            decreases last@.len() - k,
        {
            copy.push(last[k]);
            assert(last@.take(k + 1) =~= last@.take(k as int).push(last@[k as int]));
            k = k + 1;
        }
        assert(copy@ =~= last@);
        let ghost before = char_views(lines@);
        lines.push(copy);
        assert(char_views(lines@) =~= before.push(pv.last()));
    }
    lines
}

proof fn lemma_split_on_nonempty(s: Seq<char>, sep: char)
    ensures
        split_on(s, sep).len() >= 1,
    decreases s.len(),
{
    if s.len() > 0 {
        lemma_split_on_nonempty(s.drop_last(), sep);
    }
}

fn matches_at(hay: &Vec<char>, needle: &Vec<char>, i: usize) -> (r: bool)
    requires
        i + needle@.len() <= hay@.len(),
    ensures
        r == (hay@.subrange(i as int, i + needle@.len()) == needle@),
{
    let hl = hay.len();
    let mut k: usize = 0;
    while k < needle.len()
        invariant
            hl == hay@.len(),
            i + needle@.len() <= hay@.len(),
            k <= needle@.len(),
            forall|x: int| 0 <= x < k ==> hay@[i + x] == needle@[x],
        decreases needle@.len() - k,
    {
        if hay[i + k] != needle[k] {
            assert(hay@.subrange(i as int, i + needle@.len())[k as int] == hay@[i + k]);
            return false;
        }
        k = k + 1;
    }
    assert(hay@.subrange(i as int, i + needle@.len()) =~= needle@);
    true
}

fn contains_chars(hay: &Vec<char>, needle: &Vec<char>) -> (r: bool)
    ensures
        r == contains_text(hay@, needle@),
{
    if needle.len() > hay.len() {
        return false;
    }
    let last_start = hay.len() - needle.len();
    let mut i: usize = 0;
    while i < last_start
        invariant
            last_start + needle@.len() == hay@.len(),
            i <= last_start,
            forall|j: int| 0 <= j < i ==> #[trigger] hay@.subrange(j, j + needle@.len()) != needle@,
        decreases last_start - i,
    {
        if matches_at(hay, needle, i) {
            return true;
        }
        i = i + 1;
    }
    if matches_at(hay, needle, last_start) {
        return true;
    }
    proof {
        if contains_text(hay@, needle@) {
            let j = choose|j: int| 0 <= j && j + needle@.len() <= hay@.len() && #[trigger] hay@.subrange(j, j + needle@.len()) == needle@;
            if j < last_start {
                assert(hay@.subrange(j, j + needle@.len()) != needle@);
            }
        }
    }
    false
}

proof fn lemma_trim_leading_step(s: Seq<char>, i: int)
    requires
        0 <= i < s.len(),
        s[i] == '"',
    ensures
        trim_leading_quotes(s.subrange(i, s.len() as int)) == trim_leading_quotes(s.subrange(i + 1, s.len() as int)),
{
    assert(s.subrange(i, s.len() as int).drop_first() =~= s.subrange(i + 1, s.len() as int));
}

proof fn lemma_trim_trailing_step(s: Seq<char>, e: int)
    requires
        0 < e <= s.len(),
        s[e - 1] == '"',
    ensures
        trim_trailing_quotes(s.subrange(0, e)) == trim_trailing_quotes(s.subrange(0, e - 1)),
{
    assert(s.subrange(0, e).drop_last() =~= s.subrange(0, e - 1));
}

fn trim_quote_chars(s: &Vec<char>) -> (t: Vec<char>)
    ensures
        t@ == trim_quotes(s@),
{
    let n = s.len();
    let mut start: usize = 0;
    assert(s@.subrange(0, n as int) =~= s@);
    while start < n && s[start] == '"'
        invariant
            n == s@.len(),
            start <= n,
            trim_leading_quotes(s@) == trim_leading_quotes(s@.subrange(start as int, n as int)),
        decreases n - start,
    {
        proof {
            lemma_trim_leading_step(s@, start as int);
        }
        start = start + 1;
    }
    let ghost lead = s@.subrange(start as int, n as int);
    assert(trim_leading_quotes(s@) == lead);
    let mut end: usize = n;
    assert(lead.subrange(0, lead.len() as int) =~= lead);
    while end > start && s[end - 1] == '"'
        invariant
            n == s@.len(),
            start <= end <= n,
            lead == s@.subrange(start as int, n as int),
            trim_trailing_quotes(lead) == trim_trailing_quotes(lead.subrange(0, end - start)),
        decreases end,
    {
        proof {
            assert(lead[end - start - 1] == s@[end - 1]);
            lemma_trim_trailing_step(lead, end - start);
        }
        end = end - 1;
    }
    let mut t: Vec<char> = Vec::new();
    let mut k: usize = start;
    while k < end
        invariant
            start <= k <= end,
            end <= n,
            n == s@.len(),
            t@ == s@.subrange(start as int, k as int),
        decreases end - k,
    {
        t.push(s[k]);
        assert(s@.subrange(start as int, k + 1) =~= s@.subrange(start as int, k as int).push(s@[k as int]));
        k = k + 1;
    }
    assert(t@ =~= lead.subrange(0, end - start));
    assert(trim_trailing_quotes(lead.subrange(0, end - start)) == lead.subrange(0, end - start));
    t
}

/// The PIDs of the processes of image `image` that a `tasklist /FO CSV /NH`
/// listing shows, other than `own_pid`, in listing order: for every line
/// that mentions the image name, the second comma-separated field with its
/// quotes trimmed, read as a decimal number; lines where that fails are
/// skipped.
pub fn pids_to_kill(listing: &str, image: &str, own_pid: u32) -> (pids: Vec<u32>)
    ensures
        pids@ == pids_to_kill_in(text_lines(listing@), image@, own_pid),
{
    let text = text_chars(listing);
    let needle = text_chars(image);
    let lines = lines_of(&text);
    let ghost lv = char_views(lines@);
    let mut pids: Vec<u32> = Vec::new();
    let mut i: usize = 0;
    while i < lines.len()
        invariant
            lv == char_views(lines@),
            lv == text_lines(listing@),
            needle@ == image@,
            i <= lines@.len(),
            pids@ == pids_to_kill_in(lv.take(i as int), image@, own_pid),
        decreases lines@.len() - i,
    {
        let line = &lines[i];
        assert(lv.take(i + 1).drop_last() =~= lv.take(i as int));
        assert(lv.take(i + 1).last() == line@);
        if contains_chars(line, &needle) {
            let fields = split_chars(line, ',');
            if fields.len() >= 2 {
                assert(char_views(fields@)[1] == fields@[1]@);
                let field = trim_quote_chars(&fields[1]);
                match parse_unsigned_chars(&field, 4294967295) {
                    Some(pid) => {
                        let pid = pid as u32;
                        if pid != own_pid {
                            pids.push(pid);
                        }
                    },
                    None => {},
                }
            }
        }
        i = i + 1;
    }
    assert(lv.take(lv.len() as int) =~= lv);
    pids
}

} // verus!

verus! {

/// "Restart Terminals" never kills the app itself: our own PID is never
/// among the PIDs to kill.
pub proof fn lemma_own_pid_spared(lines: Seq<Seq<char>>, image: Seq<char>, own_pid: u32)
    ensures
        forall|k: int|
            0 <= k < pids_to_kill_in(lines, image, own_pid).len() ==> #[trigger] pids_to_kill_in(lines, image, own_pid)[k]
                != own_pid,
    decreases lines.len(),
{
    if lines.len() > 0 {
        lemma_own_pid_spared(lines.drop_last(), image, own_pid);
        let before = pids_to_kill_in(lines.drop_last(), image, own_pid);
        let all = pids_to_kill_in(lines, image, own_pid);
        assert forall|k: int| 0 <= k < all.len() implies #[trigger] all[k] != own_pid by {
            if k < before.len() {
                assert(all[k] == before[k]);
            }
        }
    }
}

} // verus!

verus! {

/// Splitting at a separator splits on each side of it: the pieces of
/// `a`, the separator, `b` are the pieces of `a` followed by those of `b`.
pub proof fn lemma_split_on_concat(a: Seq<char>, b: Seq<char>, sep: char)
    ensures
        split_on(a + seq![sep] + b, sep) == split_on(a, sep) + split_on(b, sep),
    decreases b.len(),
{
    let s = a + seq![sep] + b;
    if b.len() == 0 {
        assert(s.drop_last() =~= a);
        assert(split_on(b, sep) =~= seq![Seq::<char>::empty()]);
        assert(split_on(a, sep).push(Seq::<char>::empty()) =~= split_on(a, sep) + split_on(b, sep));
    } else {
        let b0 = b.drop_last();
        lemma_split_on_concat(a, b0, sep);
        lemma_split_on_nonempty(b0, sep);
        assert(s.drop_last() =~= a + seq![sep] + b0);
        assert(s.last() == b.last());
        let x = split_on(a, sep);
        let y0 = split_on(b0, sep);
        if b.last() == sep {
            assert((x + y0).push(Seq::<char>::empty()) =~= x + y0.push(Seq::<char>::empty()));
        } else {
            let xy = x + y0;
            assert(xy.update(xy.len() - 1, xy.last().push(b.last())) =~= x + y0.update(
                y0.len() - 1,
                y0.last().push(b.last()),
            ));
        }
    }
}

/// A text without the separator is a single piece.
pub proof fn lemma_split_on_whole(s: Seq<char>, sep: char)
    requires
        forall|k: int| 0 <= k < s.len() ==> s[k] != sep,
    ensures
        split_on(s, sep) == seq![s],
    decreases s.len(),
{
    if s.len() > 0 {
        lemma_split_on_whole(s.drop_last(), sep);
        assert(s.drop_last().push(s.last()) =~= s);
        assert(seq![s.drop_last()].update(0, s) =~= seq![s]);
    } else {
        assert(s =~= Seq::<char>::empty());
    }
}

/// What a line of `tasklist /FO CSV /NH` output gives: for the line
/// `"<image>","<pid>",<more fields>`, with an image name that holds no comma
/// or quote, the PID is the number in the second field, in full.
pub proof fn lemma_csv_line_pid(image: Seq<char>, pid: u32, more: Seq<char>)
    requires
        forall|k: int| 0 <= k < image.len() ==> image[k] != ',' && image[k] != '"',
    ensures
        listed_pid(
            seq!['"'] + image + seq!['"'] + seq![','] + (seq!['"'] + decimal(pid as nat) + seq!['"']) + seq![','] + more,
            image,
        ) == Some(pid),
{
    let f0 = seq!['"'] + image + seq!['"'];
    let digits = decimal(pid as nat);
    let f1 = seq!['"'] + digits + seq!['"'];
    let line = f0 + seq![','] + f1 + seq![','] + more;
    lemma_decimal_parses(pid as nat, u32::MAX as nat);
    lemma_decimal_digits(pid as nat);
    assert forall|k: int| 0 <= k < digits.len() implies digits[k] != ',' && digits[k] != '"' by {
        assert(digit_value(digits[k]) is Some);
    }
    assert forall|k: int| 0 <= k < f0.len() implies f0[k] != ',' by {
        if 1 <= k < f0.len() - 1 {
            assert(f0[k] == image[k - 1]);
        }
    }
    assert forall|k: int| 0 <= k < f1.len() implies f1[k] != ',' by {
        if 1 <= k < f1.len() - 1 {
            assert(f1[k] == digits[k - 1]);
        }
    }
    lemma_split_on_whole(f0, ',');
    lemma_split_on_whole(f1, ',');
    lemma_split_on_concat(f1, more, ',');
    assert(line =~= f0 + seq![','] + (f1 + seq![','] + more));
    lemma_split_on_concat(f0, f1 + seq![','] + more, ',');
    let fields = split_on(line, ',');
    assert(fields =~= seq![f0] + (seq![f1] + split_on(more, ',')));
    assert(fields[1] == f1);
    // The image occurs right after the opening quote.
    assert(line.subrange(1, 1 + image.len() as int) =~= image);
    assert(contains_text(line, image));
    // Trimming the quotes leaves the digits.
    assert(f1.drop_first() =~= digits + seq!['"']);
    assert(trim_leading_quotes(f1) == trim_leading_quotes(digits + seq!['"']));
    assert((digits + seq!['"'])[0] == digits[0]);
    assert(trim_leading_quotes(digits + seq!['"']) == digits + seq!['"']);
    assert((digits + seq!['"']).drop_last() =~= digits);
    assert(digits.last() == digits[digits.len() - 1]);
    assert(trim_trailing_quotes(digits + seq!['"']) == trim_trailing_quotes(digits));
    assert(trim_trailing_quotes(digits) == digits);
    assert(trim_quotes(f1) == digits);
}

/// A PID is killed exactly when some line that mentions the image lists
/// it, and it is not our own.
pub proof fn lemma_pids_to_kill_members(lines: Seq<Seq<char>>, image: Seq<char>, own_pid: u32, p: u32)
    ensures
        pids_to_kill_in(lines, image, own_pid).contains(p) <==> (p != own_pid && exists|k: int|
            0 <= k < lines.len() && #[trigger] listed_pid(lines[k], image) == Some(p)),
    decreases lines.len(),
{
    if lines.len() > 0 {
        let prefix = lines.drop_last();
        lemma_pids_to_kill_members(prefix, image, own_pid, p);
        lemma_own_pid_spared(lines, image, own_pid);
        let before = pids_to_kill_in(prefix, image, own_pid);
        let after = pids_to_kill_in(lines, image, own_pid);
        if exists|k: int| 0 <= k < prefix.len() && #[trigger] listed_pid(prefix[k], image) == Some(p) {
            let k = choose|k: int| 0 <= k < prefix.len() && #[trigger] listed_pid(prefix[k], image) == Some(p);
            assert(lines[k] == prefix[k]);
        }
        if p != own_pid && exists|k: int| 0 <= k < lines.len() && #[trigger] listed_pid(lines[k], image) == Some(p) {
            let k = choose|k: int| 0 <= k < lines.len() && #[trigger] listed_pid(lines[k], image) == Some(p);
            if k < prefix.len() {
                assert(prefix[k] == lines[k]);
                let y = choose|y: int| 0 <= y < before.len() && before[y] == p;
                assert(after[y] == before[y]);
            } else {
                assert(after[after.len() - 1] == p);
            }
        }
        if after.contains(p) {
            let y = choose|y: int| 0 <= y < after.len() && after[y] == p;
            assert(after[y] != own_pid);
            if y < before.len() {
                assert(before[y] == after[y]);
                assert(before.contains(p));
            } else {
                assert(listed_pid(lines[lines.len() - 1], image) == Some(p));
            }
        }
    }
}

} // verus!
