use vstd::prelude::*;

verus! {

/// The escape byte.
pub const ESC: u8 = 0x1b;

/// Keys that send a fixed sequence rather than their text.
#[derive(Clone, Copy, Debug, PartialEq, Eq, Structural)]
pub enum SpecialKey {
    Enter,
    Backspace,
    Tab,
    Escape,
    ArrowUp,
    ArrowDown,
    ArrowRight,
    ArrowLeft,
    Home,
    End,
    Delete,
    PageUp,
    PageDown,
    F1,
    F2,
    F3,
    F4,
    F5,
    F6,
    F7,
    F8,
    F9,
    F10,
    F11,
    F12,
    Space,
}

/// Modifier keys held with a key.
#[derive(Clone, Copy, Debug, PartialEq, Eq, Structural)]
pub struct Modifiers {
    pub shift: bool,
    pub alt: bool,
    pub ctrl: bool,
}

/// The xterm modifier parameter: 1, plus 1 for shift, 2 for alt, 4 for control.
pub open spec fn modifier_param(m: Modifiers) -> u8 {
    (1 + (if m.shift { 1int } else { 0 }) + (if m.alt { 2int } else { 0 }) + (if m.ctrl { 4int } else { 0 })) as u8
}

/// `ESC [ c`.
pub open spec fn csi(c: u8) -> Seq<u8> {
    seq![ESC, 0x5b, c]
}

/// `ESC O c`.
pub open spec fn ss3(c: u8) -> Seq<u8> {
    seq![ESC, 0x4f, c]
}

/// `ESC [ 1 ; m c`.
pub open spec fn csi_modified(m: u8, c: u8) -> Seq<u8> {
    seq![ESC, 0x5b, 0x31, 0x3b, (0x30 + m) as u8, c]
}

/// `ESC [ code ~`, or `ESC [ code ; m ~` with modifiers.
pub open spec fn csi_tilde(code: Seq<u8>, m: u8) -> Seq<u8> {
    if m > 1 {
        seq![ESC, 0x5b] + code + seq![0x3b, (0x30 + m) as u8, 0x7e]
    } else {
        seq![ESC, 0x5b] + code + seq![0x7e]
    }
}

/// A cursor-movement key: `ESC [ 1 ; m c` with modifiers, else `ESC O c` in application
/// cursor mode and `ESC [ c` otherwise.
pub open spec fn cursor_key(c: u8, m: u8, app_cursor: bool) -> Seq<u8> {
    if m > 1 {
        csi_modified(m, c)
    } else if app_cursor {
        ss3(c)
    } else {
        csi(c)
    }
}

/// A key among F1 to F4: `ESC [ 1 ; m c` with modifiers, else `ESC O c`.
pub open spec fn low_function_key(c: u8, m: u8) -> Seq<u8> {
    if m > 1 {
        csi_modified(m, c)
    } else {
        ss3(c)
    }
}

/// The bytes that `key` sends to a program, as xterm encodes them.
pub open spec fn key_bytes(key: SpecialKey, mods: Modifiers, app_cursor: bool) -> Seq<u8> {
    let m = modifier_param(mods);
    match key {
        SpecialKey::Enter => seq![0x0d],
        SpecialKey::Backspace => seq![0x7f],
        SpecialKey::Tab => if mods.shift { csi(0x5a) } else { seq![0x09] },
        SpecialKey::Escape => seq![ESC],
        SpecialKey::ArrowUp => cursor_key(0x41, m, app_cursor),
        SpecialKey::ArrowDown => cursor_key(0x42, m, app_cursor),
        SpecialKey::ArrowRight => cursor_key(0x43, m, app_cursor),
        SpecialKey::ArrowLeft => cursor_key(0x44, m, app_cursor),
        SpecialKey::Home => cursor_key(0x48, m, app_cursor),
        SpecialKey::End => cursor_key(0x46, m, app_cursor),
        SpecialKey::Delete => csi_tilde(seq![0x33], m),
        SpecialKey::PageUp => csi_tilde(seq![0x35], m),
        SpecialKey::PageDown => csi_tilde(seq![0x36], m),
        SpecialKey::F1 => low_function_key(0x50, m),
        SpecialKey::F2 => low_function_key(0x51, m),
        SpecialKey::F3 => low_function_key(0x52, m),
        SpecialKey::F4 => low_function_key(0x53, m),
        SpecialKey::F5 => csi_tilde(seq![0x31, 0x35], m),
        SpecialKey::F6 => csi_tilde(seq![0x31, 0x37], m),
        SpecialKey::F7 => csi_tilde(seq![0x31, 0x38], m),
        SpecialKey::F8 => csi_tilde(seq![0x31, 0x39], m),
        SpecialKey::F9 => csi_tilde(seq![0x32, 0x30], m),
        SpecialKey::F10 => csi_tilde(seq![0x32, 0x31], m),
        SpecialKey::F11 => csi_tilde(seq![0x32, 0x33], m),
        SpecialKey::F12 => csi_tilde(seq![0x32, 0x34], m),
        SpecialKey::Space => if mods.ctrl { seq![0x00] } else { seq![0x20] },
    }
}

fn modifier_of(mods: Modifiers) -> (r: u8)
    ensures
        r == modifier_param(mods),
        1 <= r <= 8,
{
    1 + (if mods.shift { 1 } else { 0 }) + (if mods.alt { 2 } else { 0 }) + (if mods.ctrl { 4 } else { 0 })
}

fn cursor_seq(c: u8, m: u8, app_cursor: bool) -> (r: Vec<u8>)
    requires
        1 <= m <= 8,
    ensures
        r@ == cursor_key(c, m, app_cursor),
{
    let r = if m > 1 {
        vec![ESC, 0x5b, 0x31, 0x3b, 0x30 + m, c]
    } else if app_cursor {
        vec![ESC, 0x4f, c]
    } else {
        vec![ESC, 0x5b, c]
    };
    assert(r@ =~= cursor_key(c, m, app_cursor));
    r
}

fn low_function_seq(c: u8, m: u8) -> (r: Vec<u8>)
    requires
        1 <= m <= 8,
    ensures
        r@ == low_function_key(c, m),
{
    let r = if m > 1 {
        vec![ESC, 0x5b, 0x31, 0x3b, 0x30 + m, c]
    } else {
        vec![ESC, 0x4f, c]
    };
    assert(r@ =~= low_function_key(c, m));
    r
}

fn tilde_seq(code: Vec<u8>, m: u8) -> (r: Vec<u8>)
    requires
        1 <= m <= 8,
    ensures
        r@ == csi_tilde(code@, m),
{
    let mut r = vec![ESC, 0x5b];
    let mut i: usize = 0;
    while i < code.len()
        invariant
            i <= code@.len(),
            r@ == seq![ESC, 0x5b] + code@.take(i as int),
        decreases code@.len() - i,
    {
        r.push(code[i]);
        i += 1;
        assert(r@ =~= seq![ESC, 0x5b] + code@.take(i as int));
    }
    assert(code@.take(code@.len() as int) =~= code@);
    if m > 1 {
        r.push(0x3b);
        r.push(0x30 + m);
    }
    r.push(0x7e);
    assert(r@ =~= csi_tilde(code@, m));
    r
}

/// The bytes that a special key sends, with the modifiers held and the terminal's cursor-key
/// mode.
pub fn encode_key(key: SpecialKey, mods: Modifiers, app_cursor: bool) -> (r: Vec<u8>)
    ensures
        r@ == key_bytes(key, mods, app_cursor),
{
    let m = modifier_of(mods);
    let r = match key {
        SpecialKey::Enter => vec![0x0d],
        SpecialKey::Backspace => vec![0x7f],
        SpecialKey::Tab => if mods.shift {
            vec![ESC, 0x5b, 0x5a]
        } else {
            vec![0x09]
        },
        SpecialKey::Escape => vec![ESC],
        SpecialKey::ArrowUp => cursor_seq(0x41, m, app_cursor),
        SpecialKey::ArrowDown => cursor_seq(0x42, m, app_cursor),
        SpecialKey::ArrowRight => cursor_seq(0x43, m, app_cursor),
        SpecialKey::ArrowLeft => cursor_seq(0x44, m, app_cursor),
        SpecialKey::Home => cursor_seq(0x48, m, app_cursor),
        SpecialKey::End => cursor_seq(0x46, m, app_cursor),
        SpecialKey::Delete => tilde_seq(vec![0x33], m),
        SpecialKey::PageUp => tilde_seq(vec![0x35], m),
        SpecialKey::PageDown => tilde_seq(vec![0x36], m),
        SpecialKey::F1 => low_function_seq(0x50, m),
        SpecialKey::F2 => low_function_seq(0x51, m),
        SpecialKey::F3 => low_function_seq(0x52, m),
        SpecialKey::F4 => low_function_seq(0x53, m),
        SpecialKey::F5 => tilde_seq(vec![0x31, 0x35], m),
        SpecialKey::F6 => tilde_seq(vec![0x31, 0x37], m),
        SpecialKey::F7 => tilde_seq(vec![0x31, 0x38], m),
        SpecialKey::F8 => tilde_seq(vec![0x31, 0x39], m),
        SpecialKey::F9 => tilde_seq(vec![0x32, 0x30], m),
        SpecialKey::F10 => tilde_seq(vec![0x32, 0x31], m),
        SpecialKey::F11 => tilde_seq(vec![0x32, 0x33], m),
        SpecialKey::F12 => tilde_seq(vec![0x32, 0x34], m),
        SpecialKey::Space => if mods.ctrl {
            vec![0x00]
        } else {
            vec![0x20]
        },
    };
    assert(r@ =~= key_bytes(key, mods, app_cursor));
    r
}

/// The control byte for `c` held with control: the low five bits of a lowercase letter or of
/// a character from `@` to `_`; `None` for any other character.
pub fn control_byte(c: char) -> (r: Option<u8>)
    ensures
        r == if ('a' <= c && c <= 'z') || ('@' <= c && c <= '_') {
            Some(((c as u32) % 32) as u8)
        } else {
            None::<u8>
        },
{
    if (c >= 'a' && c <= 'z') || (c >= '@' && c <= '_') {
        Some(((c as u32) % 32) as u8)
    } else {
        None
    }
}

/// Text typed with alt held: the text after an escape byte.
pub fn alt_prefixed(text: &Vec<u8>) -> (r: Vec<u8>)
    ensures
        r@ == seq![ESC] + text@,
{
    let mut r = vec![ESC];
    let mut i: usize = 0;
    while i < text.len()
        invariant
            i <= text@.len(),
            r@ == seq![ESC] + text@.take(i as int),
        decreases text@.len() - i,
    {
        r.push(text[i]);
        i += 1;
        assert(r@ =~= seq![ESC] + text@.take(i as int));
    }
    assert(text@.take(text@.len() as int) =~= text@);
    r
}

/// `ESC [ 2 0 0 ~`, which opens a bracketed paste.
pub open spec fn paste_start() -> Seq<u8> {
    seq![ESC, 0x5b, 0x32, 0x30, 0x30, 0x7e]
}

/// `ESC [ 2 0 1 ~`, which closes a bracketed paste.
pub open spec fn paste_end() -> Seq<u8> {
    seq![ESC, 0x5b, 0x32, 0x30, 0x31, 0x7e]
}

/// `s` with every occurrence of `m` taken out, left to right.
pub open spec fn without_all(s: Seq<u8>, m: Seq<u8>) -> Seq<u8>
    decreases s.len(),
{
    if s.len() == 0 || m.len() == 0 {
        s
    } else if m.len() <= s.len() && s.take(m.len() as int) == m {
        without_all(s.skip(m.len() as int), m)
    } else {
        seq![s[0]] + without_all(s.skip(1), m)
    }
}

fn strip_marker(s: &Vec<u8>, m: &Vec<u8>) -> (r: Vec<u8>)
    requires
        m@.len() > 0,
    ensures
        r@ == without_all(s@, m@),
{
    let mut r: Vec<u8> = Vec::new();
    let n = s.len();
    let mut i: usize = 0;
    assert(s@.skip(0) =~= s@);
    while i < n
        invariant
            n == s@.len(),
            m@.len() > 0,
            i <= n,
            r@ + without_all(s@.skip(i as int), m@) == without_all(s@, m@),
        decreases n - i,
    {
        let ghost rest = s@.skip(i as int);
        let mut hit = m.len() <= n - i;
        let mut k: usize = 0;
        while hit && k < m.len()
            invariant
                n == s@.len(),
                i < n,
                k <= m@.len(),
                hit ==> m@.len() <= n - i,
                hit ==> forall|j: int| 0 <= j < k ==> s@[i + j] == m@[j],
                !hit ==> !(m@.len() <= rest.len() && rest.take(m@.len() as int) == m@),
                rest == s@.skip(i as int),
            decreases m@.len() - k + (if hit { 1int } else { 0 }),
        {
            if s[i + k] != m[k] {
                assert(rest.take(m@.len() as int)[k as int] != m@[k as int]);
                hit = false;
            } else {
                k += 1;
            }
        }
        if hit {
            assert(rest.take(m@.len() as int) =~= m@);
            assert(rest.skip(m@.len() as int) =~= s@.skip(i + m@.len()));
            i += m.len();
        } else {
            assert(rest.skip(1) =~= s@.skip(i + 1));
            assert(rest[0] == s@[i as int]);
            r.push(s[i]);
            i += 1;
            assert(r@ + without_all(s@.skip(i as int), m@) =~= without_all(s@, m@));
        }
    }
    assert(s@.skip(n as int) =~= Seq::<u8>::empty());
    assert(r@ + without_all(s@.skip(n as int), m@) =~= r@);
    r
}

/// The bytes to send for pasted text: as it is, or, when the program asked for bracketed
/// paste, between the paste markers with every marker taken out of the text itself.
pub fn paste_bytes(text: &Vec<u8>, bracketed: bool) -> (r: Vec<u8>)
    ensures
        !bracketed ==> r@ == text@,
        bracketed ==> r@ == paste_start() + without_all(without_all(text@, paste_start()), paste_end())
            + paste_end(),
{
    if !bracketed {
        return copy_bytes(text);
    }
    let start = vec![ESC, 0x5b, 0x32, 0x30, 0x30, 0x7e];
    let end = vec![ESC, 0x5b, 0x32, 0x30, 0x31, 0x7e];
    assert(start@ =~= paste_start());
    assert(end@ =~= paste_end());
    let body = strip_marker(&strip_marker(text, &start), &end);
    let mut r = copy_bytes(&start);
    let mut i: usize = 0;
    while i < body.len()
        invariant
            i <= body@.len(),
            r@ == paste_start() + body@.take(i as int),
        decreases body@.len() - i,
    {
        r.push(body[i]);
        i += 1;
        assert(r@ =~= paste_start() + body@.take(i as int));
    }
    assert(body@.take(body@.len() as int) =~= body@);
    let mut k: usize = 0;
    let ghost before = r@;
    while k < end.len()
        invariant
            k <= end@.len(),
            end@ == paste_end(),
            r@ == before + end@.take(k as int),
        decreases end@.len() - k,
    {
        r.push(end[k]);
        k += 1;
        assert(r@ =~= before + end@.take(k as int));
    }
    assert(end@.take(end@.len() as int) =~= end@);
    r
}

fn copy_bytes(s: &Vec<u8>) -> (r: Vec<u8>)
    ensures
        r@ == s@,
{
    let mut r: Vec<u8> = Vec::new();
    let mut i: usize = 0;
    while i < s.len()
        invariant
            i <= s@.len(),
            r@ == s@.take(i as int),
        decreases s@.len() - i,
    {
        r.push(s[i]);
        i += 1;
        assert(r@ =~= s@.take(i as int));
    }
    assert(s@.take(s@.len() as int) =~= s@);
    r
}

/// ASCII decimal digits of `n`, most significant first, without leading zeros.
pub open spec fn decimal_bytes(n: nat) -> Seq<u8>
    decreases n,
{
    if n < 10 {
        seq![(0x30 + n) as u8]
    } else {
        decimal_bytes(n / 10).push((0x30 + n % 10) as u8)
    }
}

fn push_decimal(out: &mut Vec<u8>, n: usize)
    ensures
        final(out)@ == old(out)@ + decimal_bytes(n as nat),
    decreases n,
{
    if n >= 10 {
        push_decimal(out, n / 10);
    }
    out.push(0x30 + (n % 10) as u8);
    assert(final(out)@ =~= old(out)@ + decimal_bytes(n as nat));
}

/// An SGR mouse report, `ESC [ < button ; col ; line M` for a press or motion and the same
/// ending in `m` for a release; `col` and `line` count from 1.
pub fn sgr_mouse_report(button: u8, col: usize, line: usize, release: bool) -> (r: Vec<u8>)
    ensures
        r@ == seq![ESC, 0x5b, 0x3c] + decimal_bytes(button as nat) + seq![0x3b] + decimal_bytes(col as nat)
            + seq![0x3b] + decimal_bytes(line as nat) + seq![if release { 0x6d } else { 0x4d }],
{
    let mut r = vec![ESC, 0x5b, 0x3c];
    push_decimal(&mut r, button as usize);
    r.push(0x3b);
    push_decimal(&mut r, col);
    r.push(0x3b);
    push_decimal(&mut r, line);
    r.push(if release { 0x6d } else { 0x4d });
    r
}

/// What a turn of the mouse wheel by `lines` (positive away from the user) does in a pane.
#[derive(Clone, Copy, Debug, PartialEq, Eq, Structural)]
pub enum ScrollAction {
    /// Nothing to do.
    Nothing,
    /// Send `count` SGR wheel reports with this button (64 up, 65 down) to the program.
    Report { button: u8, count: u32 },
    /// Send `count` cursor-up (or cursor-down) keys to a full-screen program.
    Arrows { up: bool, count: u32 },
    /// Scroll the scrollback view by this many lines.
    Scrollback(i32),
}

/// Routes a wheel turn: to the program when it asked for SGR mouse reports, as arrow keys
/// on the alternate screen, which has no scrollback, and to the scrollback otherwise.
pub fn scroll_action(lines: i32, sgr_mouse: bool, alt_screen: bool) -> (r: ScrollAction)
    ensures
        lines == 0 ==> r == ScrollAction::Nothing,
        lines != 0 && sgr_mouse ==> r == (ScrollAction::Report {
            button: if lines > 0 { 64 } else { 65 },
            count: (if lines > 0 { lines as int } else { -lines }) as u32,
        }),
        lines != 0 && !sgr_mouse && alt_screen ==> r == (ScrollAction::Arrows {
            up: lines > 0,
            count: (if lines > 0 { lines as int } else { -lines }) as u32,
        }),
        lines != 0 && !sgr_mouse && !alt_screen ==> r == ScrollAction::Scrollback(lines),
{
    if lines == 0 {
        return ScrollAction::Nothing;
    }
    let count: u32 = if lines > 0 {
        lines as u32
    } else if lines == i32::MIN {
        2147483648u32
    } else {
        (-lines) as u32
    };
    if sgr_mouse {
        ScrollAction::Report { button: if lines > 0 { 64 } else { 65 }, count }
    } else if alt_screen {
        ScrollAction::Arrows { up: lines > 0, count }
    } else {
        ScrollAction::Scrollback(lines)
    }
}

} // verus!
