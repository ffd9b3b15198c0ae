//! The snapshot of a store as text: one line for each account, the name and
//! the funds with a comma between them.

use crate::storage::{funds_of_seeds, names_differ, seed_fits, seeded, seeds, Storage};
use crate::text::{decimal, decimal_string, digit};
use crate::Name;
use vstd::prelude::*;
use vstd::string::StringExecFns;

verus! {

/// Whether `c` is white space: one of the 25 characters that Unicode gives
/// the property `White_Space`.
pub open spec fn is_space(c: char) -> bool {
    let code = c as u32;
    ||| 0x09 <= code <= 0x0d
    ||| code == 0x20
    ||| code == 0x85
    ||| code == 0xa0
    ||| code == 0x1680
    ||| 0x2000 <= code <= 0x200a
    ||| code == 0x2028
    ||| code == 0x2029
    ||| code == 0x202f
    ||| code == 0x205f
    ||| code == 0x3000
}

/// `text` without the white space at its start.
pub open spec fn trim_start(text: Seq<char>) -> Seq<char>
    decreases text.len(),
{
    if text.len() > 0 && is_space(text[0]) {
        trim_start(text.drop_first())
    } else {
        text
    }
}

/// `text` without the white space at its end.
pub open spec fn trim_end(text: Seq<char>) -> Seq<char>
    decreases text.len(),
{
    if text.len() > 0 && is_space(text.last()) {
        trim_end(text.drop_last())
    } else {
        text
    }
}

/// `text` without the white space at its start and at its end.
pub open spec fn trimmed(text: Seq<char>) -> Seq<char> {
    trim_end(trim_start(text))
}

/// Whether `c` is one of the digits `0` to `9`.
pub open spec fn is_digit(c: char) -> bool {
    '0' <= c && c <= '9'
}

/// Whether `text` holds digits only.
pub open spec fn all_digits(text: Seq<char>) -> bool {
    forall|i: int| 0 <= i < text.len() ==> is_digit(#[trigger] text[i])
}

/// The number that the digit `c` stands for.
pub open spec fn digit_value(c: char) -> nat
    recommends
        is_digit(c),
{
    (c as u32 - 48) as nat
}

/// The number that the digits of `text` write in decimal.
pub open spec fn digits_value(text: Seq<char>) -> nat
    recommends
        all_digits(text),
    decreases text.len(),
{
    if text.len() == 0 {
        0
    } else {
        digits_value(text.drop_last()) * 10 + digit_value(text.last())
    }
}

/// The amount that `digits` write: a number of 64 bits, written in digits
/// only, at least one. Any other text writes no amount.
pub open spec fn digits_amount(digits: Seq<char>) -> Option<u64> {
    if digits.len() > 0 && all_digits(digits) && digits_value(digits) <= u64::MAX {
        Some(digits_value(digits) as u64)
    } else {
        None
    }
}

/// The amount that `text` writes: a number of 64 bits, written in digits
/// with or without a `+` before them. Any other text writes no amount: empty
/// text, text that holds anything but digits after the sign, and digits that
/// write a number over 64 bits.
pub open spec fn parsed_amount(text: Seq<char>) -> Option<u64> {
    if text.len() > 0 && text[0] == '+' {
        digits_amount(text.drop_first())
    } else {
        digits_amount(text)
    }
}

/// Whether `text` has a comma at position `k` and nowhere else.
pub open spec fn sole_comma(text: Seq<char>, k: int) -> bool {
    &&& 0 <= k < text.len()
    &&& text[k] == ','
    &&& forall|j: int| 0 <= j < text.len() && j != k ==> #[trigger] text[j] != ','
}

/// The account that a line of a snapshot describes. The line is taken
/// without the white space around it. With exactly one comma, and an amount
/// written after it, it gives the name before the comma and that amount.
/// Any other line is malformed and describes no account: one without a
/// comma, one with several, and one whose text after the comma writes no
/// amount.
pub open spec fn parsed_line(line: Seq<char>) -> Option<(Seq<char>, u64)> {
    let text = trimmed(line);
    if exists|k: int| sole_comma(text, k) {
        let k = choose|k: int| sole_comma(text, k);
        match parsed_amount(text.skip(k + 1)) {
            Some(amount) => Some((text.take(k), amount)),
            None => None,
        }
    } else {
        None
    }
}

/// The accounts that the lines of a snapshot describe, in the order of the
/// lines. Malformed lines are passed over.
pub open spec fn described(lines: Seq<Seq<char>>) -> Seq<(Seq<char>, u64)>
    decreases lines.len(),
{
    if lines.len() == 0 {
        Seq::empty()
    } else {
        match parsed_line(lines.last()) {
            Some(account) => described(lines.drop_last()).push(account),
            None => described(lines.drop_last()),
        }
    }
}

/// Lines, as mathematical values.
pub open spec fn texts(lines: Seq<String>) -> Seq<Seq<char>> {
    lines.map_values(|line: String| line@)
}

/// The line of a snapshot for an account: the name, a comma, the funds in
/// decimal, and a line feed.
pub open spec fn line_of(name: Seq<char>, funds: nat) -> Seq<char> {
    name + seq![','] + decimal(funds) + seq!['\n']
}

/// The snapshot of accounts: their lines, one after the other.
pub open spec fn snapshot_of(accounts: Seq<(Seq<char>, nat)>) -> Seq<char>
    decreases accounts.len(),
{
    if accounts.len() == 0 {
        Seq::empty()
    } else {
        snapshot_of(accounts.drop_last()) + line_of(accounts.last().0, accounts.last().1)
    }
}

/// Whether `c` is white space.
fn space(c: char) -> (r: bool)
    ensures
        r == is_space(c),
{
    let code = c as u32;
    (0x09 <= code && code <= 0x0d) || code == 0x20 || code == 0x85 || code == 0xa0 || code
        == 0x1680 || (0x2000 <= code && code <= 0x200a) || code == 0x2028 || code == 0x2029
        || code == 0x202f || code == 0x205f || code == 0x3000
}

/// The characters of `text`.
fn chars_of(text: &str) -> (chars: Vec<char>)
    ensures
        chars@ == text@,
{
    let mut chars: Vec<char> = Vec::new();
    for c in it: text.chars()
        invariant
            chars@ == it.seq().take(it.index() as int),
            it.seq() == text@,
    {
        chars.push(c);
    }
    chars
}

/// A number written with more digits is no smaller.
proof fn lemma_digits_value_prefix(text: Seq<char>, n: int)
    requires
        0 <= n <= text.len(),
    ensures
        digits_value(text.take(n)) <= digits_value(text),
    decreases text.len() - n,
{
    if n == text.len() {
        assert(text.take(n) =~= text);
    } else {
        lemma_digits_value_prefix(text, n + 1);
        assert(text.take(n + 1).drop_last() =~= text.take(n));
    }
}

/// The amount written by the characters from `from` up to `to`.
fn parse_amount(chars: &Vec<char>, from: usize, to: usize) -> (amount: Option<u64>)
    requires
        from <= to <= chars.len(),
    ensures
        amount == parsed_amount(chars@.subrange(from as int, to as int)),
{
    let ghost text = chars@.subrange(from as int, to as int);
    let ghost goal = parsed_amount(text);
    let mut i: usize = from;
    if i < to && chars[i] == '+' {
        i += 1;
    }
    let first = i;
    let ghost digits = chars@.subrange(first as int, to as int);
    proof {
        if first > from {
            assert(digits =~= text.drop_first());
        } else {
            assert(digits =~= text);
        }
    }
    if first == to {
        return None;
    }
    let mut value: u64 = 0;
    while i < to
        invariant
            first <= i <= to <= chars.len(),
            digits == chars@.subrange(first as int, to as int),
            goal == digits_amount(digits),
            goal == parsed_amount(chars@.subrange(from as int, to as int)),
            value == digits_value(digits.take(i - first)),
            all_digits(digits.take(i - first)),
        decreases to - i,
    {
        let c = chars[i];
        proof {
            assert(digits.take(i - first + 1).drop_last() =~= digits.take(i - first));
            lemma_digits_value_prefix(digits, i - first + 1);
        }
        if !(c >= '0' && c <= '9') {
            return None;
        }
        let d: u64 = c as u64 - 48;
        if value > (u64::MAX - d) / 10 {
            return None;
        }
        value = value * 10 + d;
        i += 1;
    }
    proof {
        assert(digits.take(to - first) =~= digits);
    }
    Some(value)
}

/// Reads one line of a snapshot: the account that it describes, or `None`
/// for a malformed line.
pub fn parse_line(line: &str) -> (account: Option<(Name, u64)>)
    ensures
        match account {
            Some((name, amount)) => parsed_line(line@) == Some((name@, amount)),
            None => parsed_line(line@) is None,
        },
{
    let chars = chars_of(line);
    let ghost all = chars@;
    let n = chars.len();
    let mut start: usize = 0;
    proof {
        assert(all.skip(0) =~= all);
    }
    while start < n && space(chars[start])
        invariant
            start <= n,
            n == chars.len(),
            all == chars@,
            trim_start(all) == trim_start(all.skip(start as int)),
        decreases n - start,
    {
        proof {
            assert(all.skip(start as int).drop_first() =~= all.skip(start + 1));
        }
        start += 1;
    }
    let mut end: usize = n;
    proof {
        assert(all.skip(start as int) =~= all.subrange(start as int, n as int));
    }
    while end > start && space(chars[end - 1])
        invariant
            start <= end <= n,
            n == chars.len(),
            all == chars@,
            trimmed(all) == trim_end(all.subrange(start as int, end as int)),
        decreases end,
    {
        proof {
            assert(all.subrange(start as int, end as int).drop_last() =~= all.subrange(
                start as int,
                end - 1,
            ));
        }
        end -= 1;
    }
    let ghost text = all.subrange(start as int, end as int);
    let mut k: usize = start;
    while k < end && chars[k] != ','
        invariant
            start <= k <= end <= n,
            n == chars.len(),
            all == chars@,
            text == all.subrange(start as int, end as int),
            forall|j: int| 0 <= j < k - start ==> #[trigger] text[j] != ',',
        decreases end - k,
    {
        k += 1;
    }
    if k == end {
        proof {
            assert forall|m: int| !sole_comma(text, m) by {
                if 0 <= m < text.len() {
                    assert(text[m] != ',');
                }
            }
        }
        return None;
    }
    let mut j: usize = k + 1;
    while j < end && chars[j] != ','
        invariant
            start <= k < j <= end <= n,
            n == chars.len(),
            all == chars@,
            text == all.subrange(start as int, end as int),
            text[k - start] == ',',
            forall|m: int| 0 <= m < k - start ==> #[trigger] text[m] != ',',
            forall|m: int| k - start < m < j - start ==> #[trigger] text[m] != ',',
        decreases end - j,
    {
        j += 1;
    }
    if j < end {
        proof {
            assert(text[j - start] == ',');
        }
        return None;
    }
    proof {
        assert(sole_comma(text, k - start));
        assert((choose|m: int| sole_comma(text, m)) == k - start);
        assert(text.take(k - start) =~= all.subrange(start as int, k as int));
        assert(text.skip(k - start + 1) =~= all.subrange(k + 1, end as int));
    }
    match parse_amount(&chars, k + 1, end) {
        Some(amount) => Some((line.substring_char(start, k).to_owned(), amount)),
        None => None,
    }
}

/// Writes the line of a snapshot for an account.
pub fn format_line(name: &str, funds: u64) -> (line: String)
    ensures
        line@ == line_of(name@, funds as nat),
{
    proof {
        reveal_strlit(",");
        reveal_strlit("\n");
    }
    let mut line = String::from_str(name);
    line.append(",");
    line.append(decimal_string(funds).as_str());
    line.append("\n");
    line
}

impl Storage {
    /// The store that the lines of a snapshot describe: it is seeded from the
    /// accounts of the well-formed lines, in their order, and every malformed
    /// line is passed over. Where no name stands twice among them, the store
    /// holds exactly those accounts, each with the funds that its line gives.
    /// `None` where a name stands several times and its amounts together pass
    /// what 64 bits hold.
    pub fn load_lines(lines: &[String]) -> (loaded: Option<Storage>)
        ensures
            match loaded {
                Some(storage) => seed_fits(described(texts(lines@))) && storage@ == seeded(
                    described(texts(lines@)),
                ),
                None => !seed_fits(described(texts(lines@))),
            },
            names_differ(described(texts(lines@))) ==> (loaded matches Some(storage)
                && storage@.funds() == funds_of_seeds(described(texts(lines@)))),
    {
        let ghost all = texts(lines@);
        let mut accounts: Vec<(Name, u64)> = Vec::new();
        let mut i: usize = 0;
        proof {
            assert(all.take(0) =~= Seq::<Seq<char>>::empty());
            assert(seeds(accounts@) =~= described(all.take(0)));
        }
        while i < lines.len()
            invariant
                i <= lines.len(),
                all == texts(lines@),
                seeds(accounts@) == described(all.take(i as int)),
            decreases lines.len() - i,
        {
            proof {
                assert(all.take(i + 1).drop_last() =~= all.take(i as int));
                assert(all.take(i + 1).last() == lines@[i as int]@);
            }
            let ghost before = accounts@;
            if let Some(account) = parse_line(lines[i].as_str()) {
                accounts.push(account);
                assert(seeds(accounts@) =~= seeds(before).push((account.0@, account.1)));
            }
            i += 1;
        }
        proof {
            assert(all.take(lines.len() as int) =~= all);
            assert(funds_of_seeds(seeds(accounts@)) =~= crate::storage::pairs(accounts@));
        }
        Storage::seed(accounts.as_slice())
    }

    /// The snapshot of the store: the lines of its accounts, in the order in
    /// which the accounts were opened.
    pub fn snapshot(&self) -> (text: String)
        ensures
            text@ == snapshot_of(self@.funds()),
    {
        let mut text = String::new();
        let n = self.accounts.len();
        let ghost funds = self@.funds();
        let mut i: usize = 0;
        while i < n
            invariant
                i <= n,
                n == self@.len(),
                funds == self@.funds(),
                text@ == snapshot_of(funds.take(i as int)),
            decreases n - i,
        {
            if let Some((name, balance)) = self.accounts.get_index(i) {
                proof {
                    assert(funds.take(i + 1).drop_last() =~= funds.take(i as int));
                }
                text.append(format_line(name.as_str(), balance.result).as_str());
            }
            i += 1;
        }
        proof {
            assert(funds.take(n as int) =~= funds);
        }
        text
    }
}

/// What makes a line malformed, and what a well-formed line gives: a line
/// without a comma, or with several, describes no account; a line with one
/// comma describes an account exactly when the text after the comma writes
/// an amount, and then with the text before the comma as its name.
pub proof fn lemma_parsed_line(line: Seq<char>, k: int)
    ensures
        (forall|m: int| !sole_comma(trimmed(line), m)) ==> parsed_line(line) is None,
        sole_comma(trimmed(line), k) ==> parsed_line(line) == match parsed_amount(
            trimmed(line).skip(k + 1),
        ) {
            Some(amount) => Some((trimmed(line).take(k), amount)),
            None => None,
        },
{
    let text = trimmed(line);
    if sole_comma(text, k) {
        let chosen = choose|m: int| sole_comma(text, m);
        assert(chosen == k) by {
            if chosen != k {
                assert(text[k] != ',');
            }
        }
    }
}

/// Text that holds anything but digits after a sign at its start writes no
/// amount, and neither does text without digits.
pub proof fn lemma_no_amount(text: Seq<char>, i: int)
    ensures
        text.len() == 0 ==> parsed_amount(text) is None,
        text.len() == 1 && text[0] == '+' ==> parsed_amount(text) is None,
        0 <= i < text.len() && !is_digit(text[i]) && !(i == 0 && text[0] == '+')
            ==> parsed_amount(text) is None,
{
    if 0 <= i < text.len() && !is_digit(text[i]) && !(i == 0 && text[0] == '+') {
        if text[0] == '+' {
            assert(text.drop_first()[i - 1] == text[i]);
        }
    }
}

/// The decimal text of a number holds digits only, at least one, and writes
/// that number.
pub proof fn lemma_decimal_digits(n: nat)
    ensures
        decimal(n).len() > 0,
        all_digits(decimal(n)),
        digits_value(decimal(n)) == n,
    decreases n,
{
    if n < 10 {
        assert(decimal(n).drop_last() =~= Seq::<char>::empty());
        assert(decimal(n).last() == digit(n));
        assert(digit(n) as u32 == n + 48);
        assert(digits_value(decimal(n).drop_last()) == 0);
    } else {
        lemma_decimal_digits(n / 10);
        assert(decimal(n).drop_last() =~= decimal(n / 10));
        assert(decimal(n).last() == digit(n % 10));
        assert(digit(n % 10) as u32 == n % 10 + 48);
        assert forall|i: int| 0 <= i < decimal(n).len() implies is_digit(
            #[trigger] decimal(n)[i],
        ) by {
            if i < decimal(n / 10).len() {
                assert(decimal(n)[i] == decimal(n / 10)[i]);
            }
        }
    }
}

/// The line that is written for an account is read back as that account,
/// where the name holds no comma and does not start with white space.
pub proof fn lemma_line_round_trip(name: Seq<char>, funds: u64)
    requires
        forall|i: int| 0 <= i < name.len() ==> name[i] != ',',
        name.len() > 0 ==> !is_space(name[0]),
    ensures
        parsed_line(line_of(name, funds as nat)) == Some((name, funds)),
{
    let number = decimal(funds as nat);
    lemma_decimal_digits(funds as nat);
    let line = line_of(name, funds as nat);
    let text = name + seq![','] + number;
    assert(line =~= text.push('\n'));
    assert(trim_start(line) == line) by {
        if name.len() > 0 {
            assert(line[0] == name[0]);
        } else {
            assert(line[0] == ',');
        }
    }
    assert(trim_end(line) == text) by {
        assert(line.last() == '\n');
        assert(is_space('\n'));
        assert(line.drop_last() =~= text);
        assert(trim_end(line) == trim_end(text));
        assert(text.last() == number.last());
        assert(is_digit(number[number.len() - 1]));
        assert(!is_space(text.last()));
    }
    let k = name.len() as int;
    assert(sole_comma(text, k)) by {
        assert forall|j: int| 0 <= j < text.len() && j != k implies #[trigger] text[j]
            != ',' by {
            if j < k {
                assert(text[j] == name[j]);
            } else {
                assert(text[j] == number[j - k - 1]);
                assert(is_digit(number[j - k - 1]));
            }
        }
    }
    let chosen = choose|m: int| sole_comma(text, m);
    assert(chosen == k) by {
        if chosen != k {
            assert(text[k] != ',');
        }
    }
    assert(text.take(k) =~= name);
    assert(text.skip(k + 1) =~= number);
    assert(is_digit(number[0]));
    assert(parsed_amount(number) == Some(funds));
    assert(trimmed(line) == text);
}

/// The lines that are written for accounts describe those accounts, in their
/// order, where no name holds a comma or starts with white space.
pub proof fn lemma_described_written(accounts: Seq<(Seq<char>, u64)>)
    requires
        forall|a: int, i: int|
            0 <= a < accounts.len() && 0 <= i < accounts[a].0.len() ==> accounts[a].0[i] != ',',
        forall|a: int|
            0 <= a < accounts.len() && accounts[a].0.len() > 0 ==> !is_space(accounts[a].0[0]),
    ensures
        described(accounts.map_values(|a: (Seq<char>, u64)| line_of(a.0, a.1 as nat)))
            == accounts,
    decreases accounts.len(),
{
    let lines = accounts.map_values(|a: (Seq<char>, u64)| line_of(a.0, a.1 as nat));
    if accounts.len() == 0 {
        assert(described(lines) =~= accounts);
    } else {
        let last = accounts.last();
        lemma_described_written(accounts.drop_last());
        lemma_line_round_trip(last.0, last.1);
        assert(lines.drop_last() =~= accounts.drop_last().map_values(
            |a: (Seq<char>, u64)| line_of(a.0, a.1 as nat),
        ));
        assert(described(lines) =~= accounts);
    }
}

} // verus!
