use vstd::prelude::*;

verus! {

/// The lines of `s`, split at each '\n'; a trailing '\n' ends with an empty line.
pub open spec fn split_lines(s: Seq<char>) -> Seq<Seq<char>>
    decreases s.len(),
{
    if s.len() == 0 {
        seq![Seq::empty()]
    } else {
        let p = split_lines(s.drop_last());
        if s.last() == '\n' {
            p.push(Seq::empty())
        } else {
            p.update(p.len() - 1, p.last().push(s.last()))
        }
    }
}

proof fn lemma_split_lines_len(s: Seq<char>)
    ensures
        split_lines(s).len() >= 1,
    decreases s.len(),
{
    if s.len() > 0 {
        lemma_split_lines_len(s.drop_last());
    }
}

/// The value of a hexadecimal digit.
pub open spec fn hex_digit(c: char) -> Option<int> {
    if '0' <= c && c <= '9' {
        Some(c as int - '0' as int)
    } else if 'a' <= c && c <= 'f' {
        Some(c as int - 'a' as int + 10)
    } else if 'A' <= c && c <= 'F' {
        Some(c as int - 'A' as int + 10)
    } else {
        None
    }
}

/// The value of a run of hexadecimal digits (0 for none); `None` if one is not a digit.
pub open spec fn hex_value(d: Seq<char>) -> Option<int>
    decreases d.len(),
{
    if d.len() == 0 {
        Some(0)
    } else {
        match (hex_value(d.drop_last()), hex_digit(d.last())) {
            (Some(v), Some(h)) => Some(v * 16 + h),
            _ => None,
        }
    }
}

/// A byte written in hexadecimal: an optional '+', then one or more hex digits whose
/// value is below 256.
pub open spec fn hex_byte(s: Seq<char>) -> Option<int> {
    let d = if s.len() > 0 && s[0] == '+' {
        s.skip(1)
    } else {
        s
    };
    if d.len() == 0 {
        None
    } else {
        match hex_value(d) {
            Some(v) => if v < 256 {
                Some(v)
            } else {
                None
            },
            None => None,
        }
    }
}

/// The code point that a line of the form "0x<hex byte>" starts a glyph for.
pub open spec fn glyph_header(line: Seq<char>) -> Option<int> {
    if line.len() >= 2 && line[0] == '0' && line[1] == 'x' {
        hex_byte(line.skip(2))
    } else {
        None
    }
}

/// The character at row `y`, column `x` of the glyph whose header is line `i`: taken
/// from the `y`-th line after the header, '*' where that line is missing or short.
pub open spec fn glyph_char(ls: Seq<Seq<char>>, i: int, y: int, x: int) -> char {
    if i + 1 + y < ls.len() && x < ls[i + 1 + y].len() {
        ls[i + 1 + y][x]
    } else {
        '*'
    }
}

/// The character at row `y`, column `x` of the glyph for `code` once the first `n` lines
/// are read: the last header for `code` among them decides; '*' where there is none.
pub open spec fn font_char(ls: Seq<Seq<char>>, n: int, code: int, y: int, x: int) -> char
    decreases n,
{
    if n <= 0 {
        '*'
    } else if glyph_header(ls[n - 1]) == Some(code) {
        glyph_char(ls, n - 1, y, x)
    } else {
        font_char(ls, n - 1, code, y, x)
    }
}

/// The position of a glyph's character in the font's table.
pub open spec fn glyph_index(code: int, y: int, x: int) -> int {
    code * 128 + y * 8 + x
}

proof fn lemma_glyph_index(code: int, y: int, x: int)
    requires
        0 <= code < 256,
        0 <= y < 16,
        0 <= x < 8,
    ensures
        0 <= glyph_index(code, y, x) < 256 * 128,
        glyph_index(code, y, x) / 128 == code,
        glyph_index(code, y, x) % 128 / 8 == y,
        glyph_index(code, y, x) % 8 == x,
{
    let i = glyph_index(code, y, x);
    assert(0 <= i < 256 * 128) by (nonlinear_arith)
        requires
            i == code * 128 + y * 8 + x,
            0 <= code < 256,
            0 <= y < 16,
            0 <= x < 8,
    ;
    vstd::arithmetic::div_mod::lemma_fundamental_div_mod_converse(i, 128, code, y * 8 + x);
    vstd::arithmetic::div_mod::lemma_fundamental_div_mod_converse(y * 8 + x, 8, y, x);
    vstd::arithmetic::div_mod::lemma_fundamental_div_mod_converse(i, 8, code * 16 + y, x);
}

/// A bitmap font of 256 glyphs of 16 rows by 8 columns; '*' marks a pixel that is drawn.
pub struct Font {
    table: Vec<char>,
}

impl Font {
    pub closed spec fn glyph_at(&self, code: int, y: int, x: int) -> char {
        self.table@[glyph_index(code, y, x)]
    }

    pub closed spec fn wf(&self) -> bool {
        self.table@.len() == 256 * 128
    }

    /// Reads a font from its text: each line "0x<hex byte>" starts the glyph for that
    /// code point, whose rows are the next 16 lines, each giving up to 8 characters.
    /// Every other character, and every glyph that no header defines, is '*'.
    pub fn parse(source: &[char]) -> (r: Font)
        ensures
            r.wf(),
            forall|code: int, y: int, x: int|
                0 <= code < 256 && 0 <= y < 16 && 0 <= x < 8 ==> #[trigger] r.glyph_at(code, y, x)
                    == font_char(
                    split_lines(source@),
                    split_lines(source@).len() as int,
                    code,
                    y,
                    x,
                ),
    {
        let lines = split_into_lines(source);
        let ghost ls = split_lines(source@);
        let mut table: Vec<char> = Vec::new();
        let mut k: usize = 0;
        while k < 256 * 128
            invariant
                k <= 256 * 128,
                table@.len() == k,
                forall|j: int| 0 <= j < k ==> table@[j] == '*',
            decreases 256 * 128 - k,
        {
            table.push('*');
            k = k + 1;
        }
        let mut i: usize = 0;
        while i < lines.len()
            invariant
                i <= lines@.len(),
                lines@.len() == ls.len(),
                forall|j: int| 0 <= j < lines@.len() ==> (#[trigger] lines@[j])@ == ls[j],
                table@.len() == 256 * 128,
                forall|code: int, y: int, x: int|
                    0 <= code < 256 && 0 <= y < 16 && 0 <= x < 8 ==> #[trigger] table@[glyph_index(
                        code,
                        y,
                        x,
                    )] == font_char(ls, i as int, code, y, x),
            decreases lines@.len() - i,
        {
            match parse_glyph_header(&lines[i]) {
                Some(code) => {
                    let ghost before = table@;
                    let mut y: usize = 0;
                    while y < 16
                        invariant
                            y <= 16,
                            i < lines@.len(),
                            lines@.len() == ls.len(),
                            forall|j: int| 0 <= j < lines@.len() ==> (#[trigger] lines@[j])@ == ls[j],
                            table@.len() == 256 * 128,
                            before.len() == 256 * 128,
                            code < 256,
                            forall|c: int, yy: int, x: int|
                                0 <= c < 256 && 0 <= yy < 16 && 0 <= x < 8 ==> #[trigger] table@[glyph_index(
                                    c,
                                    yy,
                                    x,
                                )] == if c == code && yy < y {
                                    glyph_char(ls, i as int, yy, x)
                                } else {
                                    before[glyph_index(c, yy, x)]
                                },
                        decreases 16 - y,
                    {
                        let mut x: usize = 0;
                        while x < 8
                            invariant
                                x <= 8,
                                y < 16,
                                i < lines@.len(),
                                lines@.len() == ls.len(),
                                forall|j: int|
                                    0 <= j < lines@.len() ==> (#[trigger] lines@[j])@ == ls[j],
                                table@.len() == 256 * 128,
                                before.len() == 256 * 128,
                                code < 256,
                                forall|c: int, yy: int, xx: int|
                                    0 <= c < 256 && 0 <= yy < 16 && 0 <= xx < 8
                                        ==> #[trigger] table@[glyph_index(c, yy, xx)] == if c
                                        == code && (yy < y || (yy == y && xx < x)) {
                                        glyph_char(ls, i as int, yy, xx)
                                    } else {
                                        before[glyph_index(c, yy, xx)]
                                    },
                            decreases 8 - x,
                        {
                            let ch = if y < lines.len() - 1 - i && x < lines[i + 1 + y].len() {
                                lines[i + 1 + y][x]
                            } else {
                                '*'
                            };
                            proof {
                                lemma_glyph_index(code as int, y as int, x as int);
                            }
                            let idx = code as usize * 128 + y * 8 + x;
                            table.set(idx, ch);
                            proof {
                                assert forall|c: int, yy: int, xx: int|
                                    0 <= c < 256 && 0 <= yy < 16 && 0 <= xx < 8 implies #[trigger] table@[glyph_index(
                                        c,
                                        yy,
                                        xx,
                                    )] == if c == code && (yy < y || (yy == y && xx < x + 1)) {
                                        glyph_char(ls, i as int, yy, xx)
                                    } else {
                                        before[glyph_index(c, yy, xx)]
                                    } by {
                                    lemma_glyph_index(c, yy, xx);
                                }
                            }
                            x = x + 1;
                        }
                        y = y + 1;
                    }
                },
                None => {},
            }
            i = i + 1;
        }
        Font { table }
    }

    /// The glyph for `c`, row after row, or `None` when `c` is not below 256.
    pub fn lookup_font(&self, c: char) -> (r: Option<Vec<char>>)
        requires
            self.wf(),
        ensures
            r is Some <==> (c as u32) < 256,
            r is Some ==> r->Some_0@.len() == 128 && forall|y: int, x: int|
                0 <= y < 16 && 0 <= x < 8 ==> #[trigger] r->Some_0@[y * 8 + x] == self.glyph_at(
                    c as int,
                    y,
                    x,
                ),
    {
        let code = c as u32;
        if code >= 256 {
            return None;
        }
        let base = code as usize * 128;
        let mut g: Vec<char> = Vec::new();
        let mut k: usize = 0;
        while k < 128
            invariant
                k <= 128,
                base == code * 128,
                code < 256,
                self.table@.len() == 256 * 128,
                g@.len() == k,
                forall|j: int| 0 <= j < k ==> g@[j] == self.table@[base + j],
            decreases 128 - k,
        {
            g.push(self.table[base + k]);
            k = k + 1;
        }
        Some(g)
    }
}

fn split_into_lines(s: &[char]) -> (r: Vec<Vec<char>>)
    ensures
        r@.len() == split_lines(s@).len(),
        forall|j: int| 0 <= j < r@.len() ==> (#[trigger] r@[j])@ == split_lines(s@)[j],
{
    let mut lines: Vec<Vec<char>> = Vec::new();
    let mut cur: Vec<char> = Vec::new();
    let mut k: usize = 0;
    while k < s.len()
        invariant
            k <= s@.len(),
            lines@.len() + 1 == split_lines(s@.take(k as int)).len(),
            forall|j: int| 0 <= j < lines@.len() ==> (#[trigger] lines@[j])@ == split_lines(s@.take(k as int))[j],
            cur@ == split_lines(s@.take(k as int)).last(),
        decreases s@.len() - k,
    {
        proof {
            assert(s@.take(k + 1).drop_last() =~= s@.take(k as int));
            lemma_split_lines_len(s@.take(k as int));
        }
        if s[k] == '\n' {
            lines.push(cur);
            cur = Vec::new();
        } else {
            cur.push(s[k]);
        }
        k = k + 1;
    }
    proof {
        assert(s@.take(s@.len() as int) =~= s@);
    }
    lines.push(cur);
    lines
}

fn hex_digit_value(c: char) -> (r: Option<u32>)
    ensures
        r is Some <==> hex_digit(c) is Some,
        r is Some ==> r->Some_0 == hex_digit(c)->Some_0,
{
    if '0' <= c && c <= '9' {
        Some(c as u32 - '0' as u32)
    } else if 'a' <= c && c <= 'f' {
        Some(c as u32 - 'a' as u32 + 10)
    } else if 'A' <= c && c <= 'F' {
        Some(c as u32 - 'A' as u32 + 10)
    } else {
        None
    }
}

proof fn lemma_hex_value_grows(d: Seq<char>, k: int)
    requires
        0 <= k <= d.len(),
        hex_value(d) is Some,
    ensures
        hex_value(d.take(k)) is Some,
        hex_value(d.take(k))->Some_0 <= hex_value(d)->Some_0,
        hex_value(d.take(k))->Some_0 >= 0,
    decreases d.len(),
{
    if d.len() > 0 {
        if k < d.len() {
            lemma_hex_value_grows(d.drop_last(), k);
            assert(d.drop_last().take(k) =~= d.take(k));
        } else {
            assert(d.take(k) =~= d);
            lemma_hex_value_grows(d.drop_last(), d.len() - 1);
            assert(d.drop_last().take(d.len() - 1) =~= d.drop_last());
        }
    } else {
        assert(d.take(k) =~= d);
    }
}

fn parse_glyph_header(line: &Vec<char>) -> (r: Option<u32>)
    ensures
        r is Some <==> glyph_header(line@) is Some,
        r is Some ==> r->Some_0 == glyph_header(line@)->Some_0 && r->Some_0 < 256,
{
    if line.len() < 2 || line[0] != '0' || line[1] != 'x' {
        return None;
    }
    let ghost s = line@.skip(2);
    let mut start: usize = 2;
    if line.len() > 2 && line[2] == '+' {
        start = 3;
    }
    let ghost d = line@.skip(start as int);
    assert(d =~= if s.len() > 0 && s[0] == '+' {
        s.skip(1)
    } else {
        s
    });
    if start == line.len() {
        return None;
    }
    let mut v: u32 = 0;
    let mut k: usize = start;
    while k < line.len()
        invariant
            start <= k <= line@.len(),
            start < line@.len(),
            d == line@.skip(start as int),
            s == line@.skip(2),
            d == if s.len() > 0 && s[0] == '+' {
                s.skip(1)
            } else {
                s
            },
            hex_value(d.take(k - start)) == Some(v as int),
            v < 256,
        decreases line@.len() - k,
    {
        proof {
            assert(d.take(k - start + 1).drop_last() =~= d.take(k - start));
            assert(d.take(k - start + 1).last() == line@[k as int]);
        }
        match hex_digit_value(line[k]) {
            Some(h) => {
                v = v * 16 + h;
                assert(hex_value(d.take(k - start + 1)) == Some(v as int));
                if v >= 256 {
                    proof {
                        if hex_value(d) is Some {
                            lemma_hex_value_grows(d, k - start + 1);
                        }
                        assert(hex_byte(s) is None);
                    }
                    return None;
                }
            },
            None => {
                proof {
                    assert(hex_value(d.take(k - start + 1)) is None);
                    if hex_value(d) is Some {
                        lemma_hex_value_grows(d, k - start + 1);
                    }
                    assert(hex_byte(s) is None);
                }
                return None;
            },
        }
        k = k + 1;
    }
    proof {
        assert(d.take(k - start) =~= d);
    }
    Some(v)
}

} // verus!
