use vstd::prelude::*;

verus! {

broadcast use vstd::string::axiom_spec_iter;

/// The operation of one line of the input.
#[allow(non_camel_case_types)]
#[derive(Clone, Copy, Debug, PartialEq, Eq, Structural)]
pub enum OPCODE {
    LW,
    LH,
    LB,
    SW,
    SH,
    SB,
    NOP,
    INVALID,
}

/// One instruction: the operation, the 32-bit operand of a store (most significant byte
/// first; `sb` and `sh` store its low byte and low half-word) and the address it accesses.
#[derive(Clone, Copy, Debug)]
pub struct Instruction {
    pub opcode: OPCODE,
    pub value: [u8; 4],
    pub addr: u32,
}

// ---------------------------------------------------------------------------------------
// Splitting text into words

/// Unicode's White_Space characters, the ones `char::is_whitespace` accepts.
pub open spec fn is_ws(c: char) -> bool {
    let x = c as u32;
    ||| 0x09 <= x <= 0x0D
    ||| x == 0x20
    ||| x == 0x85
    ||| x == 0xA0
    ||| x == 0x1680
    ||| 0x2000 <= x <= 0x200A
    ||| x == 0x2028
    ||| x == 0x2029
    ||| x == 0x202F
    ||| x == 0x205F
    ||| x == 0x3000
}

/// The length of the run of non-whitespace characters that `s` starts with.
pub open spec fn word_len(s: Seq<char>) -> nat
    decreases s.len(),
{
    if s.len() == 0 || is_ws(s[0]) {
        0
    } else {
        1 + word_len(s.drop_first())
    }
}

/// The words of `s`: its maximal runs of non-whitespace characters, in order.
pub open spec fn words(s: Seq<char>) -> Seq<Seq<char>>
    decreases s.len(),
{
    if s.len() == 0 {
        Seq::empty()
    } else if is_ws(s[0]) {
        words(s.drop_first())
    } else {
        let k = word_len(s);
        proof {
            lemma_word_len_bound(s);
        }
        seq![s.take(k as int)] + words(s.skip(k as int))
    }
}

// ---------------------------------------------------------------------------------------
// Numbers

pub open spec fn is_digit(c: char) -> bool {
    '0' <= c <= '9'
}

pub open spec fn digit_value(c: char) -> nat {
    (c as u32 - '0' as u32) as nat
}

/// The decimal value of a run of digits.
pub open spec fn digits_value(s: Seq<char>) -> nat
    decreases s.len(),
{
    if s.len() == 0 {
        0
    } else {
        digits_value(s.drop_last()) * 10 + digit_value(s.last())
    }
}

/// The digits of a number: a leading `+` is dropped.
pub open spec fn digits_of(word: Seq<char>) -> Seq<char> {
    if word.len() > 0 && word[0] == '+' {
        word.drop_first()
    } else {
        word
    }
}

/// `word` reads as a `u32`, as `str::parse::<u32>` accepts it: an optional `+`, then one
/// or more decimal digits, of value at most `u32::MAX`.
pub open spec fn is_u32(word: Seq<char>) -> bool {
    let d = digits_of(word);
    &&& d.len() > 0
    &&& forall|i: int| 0 <= i < d.len() ==> #[trigger] is_digit(d[i])
    &&& digits_value(d) <= u32::MAX
}

pub open spec fn u32_value(word: Seq<char>) -> u32 {
    digits_value(digits_of(word)) as u32
}

/// The four bytes of `v`, most significant first.
pub open spec fn be_bytes(v: u32) -> Seq<u8> {
    seq![
        (v / 0x100_0000) as u8,
        ((v / 0x1_0000) % 0x100) as u8,
        ((v / 0x100) % 0x100) as u8,
        (v % 0x100) as u8,
    ]
}

// ---------------------------------------------------------------------------------------
// Lines

/// The operation a word names.
pub open spec fn opcode_of(word: Seq<char>) -> OPCODE {
    if word == seq!['l', 'w'] {
        OPCODE::LW
    } else if word == seq!['l', 'h'] {
        OPCODE::LH
    } else if word == seq!['l', 'b'] {
        OPCODE::LB
    } else if word == seq!['s', 'w'] {
        OPCODE::SW
    } else if word == seq!['s', 'h'] {
        OPCODE::SH
    } else if word == seq!['s', 'b'] {
        OPCODE::SB
    } else if word == seq!['n', 'o', 'p'] {
        OPCODE::NOP
    } else {
        OPCODE::INVALID
    }
}

/// The number in word `i` of a line, or 0 where the line has no such word.
pub open spec fn number_field(line: Seq<char>, i: int) -> u32 {
    if words(line).len() > i {
        u32_value(words(line)[i])
    } else {
        0
    }
}

/// A line can be read: its second and third words, where present, are numbers.
pub open spec fn line_parses(line: Seq<char>) -> bool {
    &&& words(line).len() > 1 ==> is_u32(words(line)[1])
    &&& words(line).len() > 2 ==> is_u32(words(line)[2])
}

pub open spec fn line_opcode(line: Seq<char>) -> OPCODE {
    if words(line).len() == 0 {
        OPCODE::INVALID
    } else {
        opcode_of(words(line)[0])
    }
}

pub open spec fn is_memory_op(op: OPCODE) -> bool {
    !(op is NOP || op is INVALID)
}

pub open spec fn is_store(op: OPCODE) -> bool {
    op is SW || op is SH || op is SB
}

/// What a line reads as: its operation (`INVALID` where a number field is not a `u32`); the
/// address (the second word) for a load or a store, else 0; the value (the third word, as
/// bytes) for a store, else zeros.
pub open spec fn parsed_as(line: Seq<char>, inst: Instruction) -> bool {
    let op = if line_parses(line) { line_opcode(line) } else { OPCODE::INVALID };
    &&& inst.opcode == op
    &&& inst.addr == if is_memory_op(op) { number_field(line, 1) } else { 0 }
    &&& inst.value@ == if is_store(op) { be_bytes(number_field(line, 2)) } else { seq![0u8, 0u8, 0u8, 0u8] }
}

/// The position of the first `'\n'` in `s`, or its length.
pub open spec fn newline_at(s: Seq<char>) -> nat
    decreases s.len(),
{
    if s.len() == 0 || s[0] == '\n' {
        0
    } else {
        1 + newline_at(s.drop_first())
    }
}

/// A line without the `'\r'` of a `"\r\n"` ending.
pub open spec fn strip_cr(line: Seq<char>) -> Seq<char> {
    if line.len() > 0 && line.last() == '\r' {
        line.drop_last()
    } else {
        line
    }
}

/// The lines of `s`, as `str::lines` splits it: at each `'\n'`, dropping a `'\r'` right
/// before it; a last line needs no ending, and an ending at the very end starts no new line.
pub open spec fn lines(s: Seq<char>) -> Seq<Seq<char>>
    decreases s.len(),
{
    if s.len() == 0 {
        Seq::empty()
    } else {
        let k = newline_at(s);
        if k >= s.len() {
            seq![s]
        } else {
            seq![strip_cr(s.take(k as int))] + lines(s.skip(k + 1 as int))
        }
    }
}

// ---------------------------------------------------------------------------------------
// Proofs about words

pub proof fn lemma_word_len_bound(s: Seq<char>)
    ensures
        word_len(s) <= s.len(),
        s.len() > 0 && !is_ws(s[0]) ==> word_len(s) >= 1,
        forall|i: int| 0 <= i < word_len(s) ==> !is_ws(#[trigger] s[i]),
        word_len(s) < s.len() ==> is_ws(s[word_len(s) as int]),
    decreases s.len(),
{
    if s.len() > 0 && !is_ws(s[0]) {
        lemma_word_len_bound(s.drop_first());
        assert forall|i: int| 0 <= i < word_len(s) implies !is_ws(#[trigger] s[i]) by {
            if i > 0 {
                assert(s[i] == s.drop_first()[i - 1]);
            }
        }
    }
}

/// Words of a suffix starting at whitespace: the whitespace is skipped.
proof fn lemma_words_skip_ws(s: Seq<char>, i: int)
    requires
        0 <= i < s.len(),
        is_ws(s[i]),
    ensures
        words(s.skip(i)) == words(s.skip(i + 1)),
{
    assert(s.skip(i).drop_first() =~= s.skip(i + 1));
}

/// The length of the word at `i` is counted by the non-whitespace characters from `i`.
proof fn lemma_word_len_at(s: Seq<char>, i: int, j: int)
    requires
        0 <= i <= j <= s.len(),
        forall|k: int| i <= k < j ==> !is_ws(#[trigger] s[k]),
        j == s.len() || is_ws(s[j]),
    ensures
        word_len(s.skip(i)) == j - i,
    decreases j - i,
{
    if i < j {
        lemma_word_len_at(s, i + 1, j);
        assert(s.skip(i).drop_first() =~= s.skip(i + 1));
    } else {
        if j < s.len() {
            assert(s.skip(i)[0] == s[j]);
        }
    }
}

/// Words of a suffix starting with a word `[i, j)`.
proof fn lemma_words_word(s: Seq<char>, i: int, j: int)
    requires
        0 <= i < j <= s.len(),
        forall|k: int| i <= k < j ==> !is_ws(#[trigger] s[k]),
        j == s.len() || is_ws(s[j]),
    ensures
        words(s.skip(i)) == seq![s.subrange(i, j)] + words(s.skip(j)),
{
    lemma_word_len_at(s, i, j);
    assert(s.skip(i)[0] == s[i]);
    assert(s.skip(i).take(j - i) =~= s.subrange(i, j));
    assert(s.skip(i).skip(j - i) =~= s.skip(j));
}

fn is_whitespace(c: char) -> (r: bool)
    ensures
        r == is_ws(c),
{
    let x = c as u32;
    (0x09 <= x && x <= 0x0D) || x == 0x20 || x == 0x85 || x == 0xA0 || x == 0x1680 || (0x2000
        <= x && x <= 0x200A) || x == 0x2028 || x == 0x2029 || x == 0x202F || x == 0x205F || x
        == 0x3000
}

/// The next word of `chars` at or after `from`, as a range; an empty range at the end when
/// there is none.
fn next_word(chars: &Vec<char>, from: usize) -> (r: (usize, usize))
    requires
        from <= chars@.len(),
    ensures
        from <= r.0 <= r.1 <= chars@.len(),
        r.0 == chars@.len() ==> r.1 == r.0 && words(chars@.skip(from as int)) == Seq::<Seq<char>>::empty(),
        r.0 < chars@.len() ==> words(chars@.skip(from as int)) == seq![chars@.subrange(r.0 as int, r.1 as int)] + words(chars@.skip(r.1 as int)),
{
    let mut i = from;
    while i < chars.len() && is_whitespace(chars[i])
        invariant
            from <= i <= chars@.len(),
            words(chars@.skip(from as int)) == words(chars@.skip(i as int)),
        decreases chars@.len() - i,
    {
        proof { lemma_words_skip_ws(chars@, i as int); }
        i += 1;
    }
    if i == chars.len() {
        assert(chars@.skip(i as int) =~= Seq::<char>::empty());
        return (i, i);
    }
    let mut j = i + 1;
    while j < chars.len() && !is_whitespace(chars[j])
        invariant
            i < j <= chars@.len(),
            forall|k: int| i <= k < j ==> !is_ws(#[trigger] chars@[k]),
        decreases chars@.len() - j,
    {
        j += 1;
    }
    proof { lemma_words_word(chars@, i as int, j as int); }
    (i, j)
}

// ---------------------------------------------------------------------------------------
// Proofs about numbers

/// A prefix of a run of digits is worth no more than the whole run.
proof fn lemma_digits_prefix(s: Seq<char>, i: int)
    requires
        0 <= i <= s.len(),
    ensures
        digits_value(s.take(i)) <= digits_value(s),
    decreases s.len() - i,
{
    if i < s.len() {
        lemma_digits_prefix(s, i + 1);
        assert(s.take(i + 1).drop_last() =~= s.take(i));
    } else {
        assert(s.take(i) =~= s);
    }
}

/// The `u32` a word of `chars` spells, the word being `[start, end)`, or `None` where the
/// word is no such number.
fn parse_u32(chars: &Vec<char>, start: usize, end: usize) -> (r: Option<u32>)
    requires
        start <= end <= chars@.len(),
    ensures
        r == if is_u32(chars@.subrange(start as int, end as int)) {
            Some(u32_value(chars@.subrange(start as int, end as int)))
        } else {
            None::<u32>
        },
{
    let ghost word = chars@.subrange(start as int, end as int);
    if start == end {
        return None;
    }
    let mut i = start;
    if chars[start] == '+' {
        i = start + 1;
    }
    let ghost d = digits_of(word);
    assert(d =~= chars@.subrange(i as int, end as int));
    if i == end {
        return None;
    }
    let mut v: u32 = 0;
    let mut p = i;
    while p < end
        invariant
            i <= p <= end <= chars@.len(),
            d == chars@.subrange(i as int, end as int),
            d == digits_of(chars@.subrange(start as int, end as int)),
            forall|k: int| 0 <= k < p - i ==> #[trigger] is_digit(d[k]),
            v == digits_value(d.take(p - i)),
        decreases end - p,
    {
        let c = chars[p];
        assert(d[p - i] == c);
        if !('0' <= c && c <= '9') {
            assert(!is_digit(d[p - i]));
            return None;
        }
        proof {
            let t = d.take(p - i + 1);
            assert(t.drop_last() =~= d.take(p - i));
            assert(t.last() == c);
            assert(digits_value(t) == v * 10 + digit_value(c));
        }
        let next: u64 = v as u64 * 10 + (c as u32 - '0' as u32) as u64;
        if next > 0xffff_ffff {
            proof {
                lemma_digits_prefix(d, p - i + 1);
            }
            return None;
        }
        v = next as u32;
        p += 1;
    }
    assert(d.take(end - i) =~= d);
    Some(v)
}

// ---------------------------------------------------------------------------------------
// Parsing

fn word_is(chars: &Vec<char>, start: usize, end: usize, name: &[char]) -> (r: bool)
    requires
        start <= end <= chars@.len(),
    ensures
        r == (chars@.subrange(start as int, end as int) == name@),
{
    if end - start != name.len() {
        return false;
    }
    let mut k: usize = 0;
    while k < name.len()
        invariant
            start <= end <= chars@.len(),
            end - start == name@.len(),
            k <= name@.len(),
            forall|x: int| 0 <= x < k ==> chars@[start + x] == name@[x],
        decreases name@.len() - k,
    {
        if chars[start + k] != name[k] {
            assert(chars@.subrange(start as int, end as int)[k as int] != name@[k as int]);
            return false;
        }
        k += 1;
    }
    assert(chars@.subrange(start as int, end as int) =~= name@);
    true
}

/// The bytes of `v`, most significant first.
fn to_be_bytes(v: u32) -> (r: [u8; 4])
    ensures
        r@ == be_bytes(v),
{
    let bytes = [(v >> 24) as u8, (v >> 16) as u8, (v >> 8) as u8, v as u8];
    assert((v >> 24) as u8 == (v / 0x100_0000) as u8) by (bit_vector);
    assert((v >> 16) as u8 == ((v / 0x1_0000) % 0x100) as u8) by (bit_vector);
    assert((v >> 8) as u8 == ((v / 0x100) % 0x100) as u8) by (bit_vector);
    assert(v as u8 == (v % 0x100) as u8) by (bit_vector);
    assert(bytes@ =~= be_bytes(v));
    bytes
}

/// Reads one line, given as characters.
fn parse_chars(line: &Vec<char>) -> (r: Instruction)
    ensures
        parsed_as(line@, r),
{
    let ghost ws = words(line@);
    assert(line@.skip(0) =~= line@);
    let zero = [0u8; 4];
    assert(zero@ =~= seq![0u8, 0u8, 0u8, 0u8]);
    let (s0, e0) = next_word(line, 0);
    if s0 == line.len() {
        return Instruction { opcode: OPCODE::INVALID, addr: 0, value: zero };
    }
    let (s1, e1) = next_word(line, e0);
    let address_read = if s1 == line.len() {
        Some(0)
    } else {
        parse_u32(line, s1, e1)
    };
    let (s2, e2) = if s1 == line.len() {
        (s1, s1)
    } else {
        next_word(line, e1)
    };
    proof {
        if s1 == line@.len() {
            assert(line@.skip(s1 as int) =~= Seq::<char>::empty());
            assert(words(line@.skip(s1 as int)) == Seq::<Seq<char>>::empty());
        }
    }
    let value_read = if s2 == line.len() {
        Some(0)
    } else {
        parse_u32(line, s2, e2)
    };
    let (address, value) = match (address_read, value_read) {
        (Some(address), Some(value)) => (address, value),
        _ => {
            return Instruction { opcode: OPCODE::INVALID, addr: 0, value: zero };
        },
    };
    let bytes = to_be_bytes(value);
    if word_is(line, s0, e0, &['l', 'w']) {
        assert(['l', 'w']@ =~= seq!['l', 'w']);
        Instruction { opcode: OPCODE::LW, addr: address, value: zero }
    } else if word_is(line, s0, e0, &['l', 'h']) {
        Instruction { opcode: OPCODE::LH, addr: address, value: zero }
    } else if word_is(line, s0, e0, &['l', 'b']) {
        Instruction { opcode: OPCODE::LB, addr: address, value: zero }
    } else if word_is(line, s0, e0, &['s', 'w']) {
        Instruction { opcode: OPCODE::SW, addr: address, value: bytes }
    } else if word_is(line, s0, e0, &['s', 'h']) {
        Instruction { opcode: OPCODE::SH, addr: address, value: bytes }
    } else if word_is(line, s0, e0, &['s', 'b']) {
        Instruction { opcode: OPCODE::SB, addr: address, value: bytes }
    } else if word_is(line, s0, e0, &['n', 'o', 'p']) {
        Instruction { opcode: OPCODE::NOP, addr: 0, value: zero }
    } else {
        Instruction { opcode: OPCODE::INVALID, addr: 0, value: zero }
    }
}

/// The characters of `s`.
fn chars_of(s: &str) -> (r: Vec<char>)
    ensures
        r@ == s@,
{
    let mut v: Vec<char> = Vec::new();
    for c in it: s.chars()
        invariant
            v@ == it.seq().take(it.index() as int),
    {
        v.push(c);
    }
    assert(v@ =~= s@);
    v
}

/// Reads one line of the input: `lw|lh|lb <address>`, `sw|sh|sb <address> <value>` or
/// `nop`; anything else, an empty line, or a line whose second or third word is not a `u32`,
/// reads as `INVALID`.
pub fn parse_line(line: &str) -> (r: Instruction)
    ensures
        parsed_as(line@, r),
{
    let chars = chars_of(line);
    parse_chars(&chars)
}

/// Lines of a suffix of `s` that starts with a line ending at `k` (a `'\n'`, or the end).
proof fn lemma_lines_step(s: Seq<char>, start: int, k: int)
    requires
        0 <= start < k <= s.len() || (0 <= start == k < s.len()),
        forall|x: int| start <= x < k ==> #[trigger] s[x] != '\n',
        k == s.len() || s[k] == '\n',
    ensures
        k < s.len() ==> lines(s.skip(start)) == seq![strip_cr(s.subrange(start, k))] + lines(s.skip(k + 1)),
        k == s.len() ==> lines(s.skip(start)) == seq![s.subrange(start, k)],
{
    lemma_newline_at(s, start, k);
    assert(s.skip(start).take(k - start) =~= s.subrange(start, k));
    if k < s.len() {
        assert(s.skip(start).skip(k - start + 1) =~= s.skip(k + 1));
    } else {
        assert(s.skip(start) =~= s.subrange(start, k));
    }
}

proof fn lemma_newline_at(s: Seq<char>, start: int, k: int)
    requires
        0 <= start <= k <= s.len(),
        forall|x: int| start <= x < k ==> #[trigger] s[x] != '\n',
        k == s.len() || s[k] == '\n',
    ensures
        newline_at(s.skip(start)) == k - start,
    decreases k - start,
{
    if start < k {
        lemma_newline_at(s, start + 1, k);
        assert(s.skip(start).drop_first() =~= s.skip(start + 1));
    } else if k < s.len() {
        assert(s.skip(start)[0] == s[k]);
    }
}

/// The characters `[start, end)` of `chars`, as a vector of their own.
fn copy_range(chars: &Vec<char>, start: usize, end: usize) -> (r: Vec<char>)
    requires
        start <= end <= chars@.len(),
    ensures
        r@ == chars@.subrange(start as int, end as int),
{
    let mut v: Vec<char> = Vec::new();
    let mut i = start;
    while i < end
        invariant
            start <= i <= end <= chars@.len(),
            v@ == chars@.subrange(start as int, i as int),
        decreases end - i,
    {
        v.push(chars[i]);
        i += 1;
        assert(v@ =~= chars@.subrange(start as int, i as int));
    }
    v
}

/// Reads every line of the input, in order.
pub fn parse_file(contents: &str) -> (r: Vec<Instruction>)
    ensures
        r@.len() == lines(contents@).len(),
        forall|i: int| 0 <= i < r@.len() ==> parsed_as(#[trigger] lines(contents@)[i], r@[i]),
{
    let chars = chars_of(contents);
    let ghost all = lines(chars@);
    let mut result: Vec<Instruction> = Vec::new();
    let mut start: usize = 0;
    assert(chars@.skip(0) =~= chars@);
    while start < chars.len()
        invariant
            start <= chars@.len(),
            chars@ == contents@,
            all == lines(chars@),
            all.len() == result@.len() + lines(chars@.skip(start as int)).len(),
            forall|i: int| 0 <= i < result@.len() ==> parsed_as(#[trigger] all[i], result@[i]),
            all.skip(result@.len() as int) == lines(chars@.skip(start as int)),
        decreases chars@.len() - start,
    {
        let mut k = start;
        while k < chars.len() && chars[k] != '\n'
            invariant
                start <= k <= chars@.len(),
                forall|x: int| start <= x < k ==> #[trigger] chars@[x] != '\n',
            decreases chars@.len() - k,
        {
            k += 1;
        }
        proof { lemma_lines_step(chars@, start as int, k as int); }
        let ghost n = result@.len();
        let line = if k < chars.len() {
            let end = if k > start && chars[k - 1] == '\r' { k - 1 } else { k };
            proof {
                assert(strip_cr(chars@.subrange(start as int, k as int)) =~= chars@.subrange(start as int, end as int));
            }
            copy_range(&chars, start, end)
        } else {
            copy_range(&chars, start, k)
        };
        assert(all[n as int] == line@) by {
            assert(all.skip(n as int)[0] == all[n as int]);
        }
        let inst = parse_chars(&line);
        result.push(inst);
        start = if k < chars.len() { k + 1 } else { k };
        proof {
            assert(all.skip(result@.len() as int) =~= all.skip(n as int).drop_first());
            if k == chars@.len() {
                assert(chars@.skip(start as int) =~= Seq::<char>::empty());
            }
        }
    }
    assert(chars@.skip(start as int) =~= Seq::<char>::empty());
    result
}

} // verus!
