//! What a terminal makes of a SIXEL.

use crate::codes::{
    COLOR, DCS, DIGIT_ZERO, EMPTY_SIXEL, ESC, NEXT_BAND, RASTER, REPEAT, RETURN, RGB_PERCENT,
    SEPARATOR, SIXEL, ST,
};
use crate::types::{Header, Rgb, SIXEL_REPEAT_MAX};
use vstd::prelude::*;

verus! {

/// How far into a SIXEL a terminal is.
pub enum Phase {
    /// Nothing has come yet.
    Start,
    /// The escape of the introducer has come.
    Escape,
    /// The parameters of the introducer come.
    Introducer,
    /// The sixels come.
    Sixels,
    /// The escape of the terminator has come.
    Ending,
    /// The SIXEL is complete.
    Done,
    /// Something has come that does not belong there.
    Broken,
}

/// What the numbers are for that a terminal reads.
pub enum Command {
    /// Nothing.
    Nothing,
    /// Selecting or defining a color.
    Color,
    /// Repeating the next sixel.
    Repeat,
    /// The raster attributes.
    Raster,
}

/// A terminal that shows a SIXEL.
pub struct Terminal {
    pub phase: Phase,
    /// The command whose numbers come.
    pub command: Command,
    /// The numbers that are complete, and the one that is not.
    pub numbers: Seq<nat>,
    pub number: nat,
    /// How many times the next sixel comes.
    pub repeat: nat,
    /// The color register that is selected.
    pub color: nat,
    /// The column of the next sixel, and the first row of its band.
    pub x: int,
    pub y: int,
    /// The parameters of the introducer.
    pub introducer: Seq<nat>,
    /// The raster attributes.
    pub raster: Seq<nat>,
    /// The colors of the registers, as RGB percents.
    pub registers: Map<nat, (nat, nat, nat)>,
    /// The register of every pixel that a sixel has painted, by column and row.
    pub pixels: Map<(int, int), nat>,
}

/// Whether row `row` of a sixel is lit.
pub open spec fn lit(bits: u8, row: int) -> bool {
    if row == 0 {
        bits % 2 == 1
    } else if row == 1 {
        (bits / 2) % 2 == 1
    } else if row == 2 {
        (bits / 4) % 2 == 1
    } else if row == 3 {
        (bits / 8) % 2 == 1
    } else if row == 4 {
        (bits / 16) % 2 == 1
    } else if row == 5 {
        (bits / 32) % 2 == 1
    } else {
        false
    }
}

/// A terminal before a SIXEL.
pub open spec fn blank_terminal() -> Terminal {
    Terminal {
        phase: Phase::Start,
        command: Command::Nothing,
        numbers: Seq::empty(),
        number: 0,
        repeat: 1,
        color: 0,
        x: 0,
        y: 0,
        introducer: Seq::empty(),
        raster: Seq::empty(),
        registers: Map::empty(),
        pixels: Map::empty(),
    }
}

impl Terminal {
    /// The terminal after a digit.
    pub open spec fn digit(self, byte: u8) -> Terminal {
        Terminal { number: self.number * 10 + (byte - DIGIT_ZERO) as nat, ..self }
    }

    /// The terminal after the separator of two numbers.
    pub open spec fn separator(self) -> Terminal {
        Terminal { numbers: self.numbers.push(self.number), number: 0, ..self }
    }

    /// The terminal after the start of a command.
    pub open spec fn start(self, command: Command) -> Terminal {
        Terminal { command, numbers: Seq::empty(), number: 0, ..self }
    }

    /// The terminal after the command whose numbers have come.
    pub open spec fn finish(self) -> Terminal {
        let rest = self.start(Command::Nothing);
        match self.command {
            Command::Nothing => rest,
            Command::Color => if self.numbers.len() == 0 {
                Terminal { color: self.number, ..rest }
            } else if self.numbers.len() == 4 && self.numbers[1] == 2 {
                Terminal {
                    color: self.numbers[0],
                    registers: self.registers.insert(
                        self.numbers[0],
                        (self.numbers[2], self.numbers[3], self.number),
                    ),
                    ..rest
                }
            } else {
                Terminal { phase: Phase::Broken, ..rest }
            },
            Command::Repeat => if self.numbers.len() == 0 && 0 < self.number <= SIXEL_REPEAT_MAX {
                Terminal { repeat: self.number, ..rest }
            } else {
                Terminal { phase: Phase::Broken, ..rest }
            },
            Command::Raster => Terminal { raster: self.numbers.push(self.number), ..rest },
        }
    }

    /// Whether one of `sixels` lights the pixel at `place`.
    pub open spec fn lights(self, sixels: Seq<u8>, place: (int, int)) -> bool {
        0 <= place.0 - self.x < sixels.len() && lit(
            sixels[place.0 - self.x],
            place.1 - self.y,
        )
    }

    /// The terminal after `sixels`, one for each column.
    pub open spec fn paint(self, sixels: Seq<u8>) -> Terminal {
        Terminal {
            x: self.x + sixels.len(),
            pixels: Map::new(
                |place: (int, int)|
                    self.pixels.dom().contains(place) || self.lights(sixels, place),
                |place: (int, int)|
                    if self.lights(sixels, place) {
                        self.color
                    } else {
                        self.pixels[place]
                    },
            ),
            ..self
        }
    }

    /// The terminal after a byte among the sixels that is neither a digit nor a
    /// separator, once the command before it is finished.
    pub open spec fn control(self, byte: u8) -> Terminal {
        if byte == COLOR {
            self.start(Command::Color)
        } else if byte == REPEAT {
            self.start(Command::Repeat)
        } else if byte == RASTER {
            self.start(Command::Raster)
        } else if byte == RETURN {
            Terminal { x: 0, ..self }
        } else if byte == NEXT_BAND {
            Terminal { x: 0, y: self.y + 6, ..self }
        } else if byte == ESC {
            Terminal { phase: Phase::Ending, ..self }
        } else if EMPTY_SIXEL <= byte < EMPTY_SIXEL + 64 {
            Terminal {
                repeat: 1,
                ..self.paint(Seq::new(self.repeat, |i: int| (byte - EMPTY_SIXEL) as u8))
            }
        } else {
            Terminal { phase: Phase::Broken, ..self }
        }
    }

    /// The terminal after one byte.
    pub open spec fn step(self, byte: u8) -> Terminal {
        match self.phase {
            Phase::Start => Terminal {
                phase: if byte == ESC {
                    Phase::Escape
                } else {
                    Phase::Broken
                },
                ..self
            },
            Phase::Escape => Terminal {
                phase: if byte == DCS {
                    Phase::Introducer
                } else {
                    Phase::Broken
                },
                ..self
            },
            Phase::Introducer => if crate::number::is_digit(byte) {
                self.digit(byte)
            } else if byte == SEPARATOR {
                self.separator()
            } else if byte == SIXEL {
                Terminal {
                    phase: Phase::Sixels,
                    introducer: self.numbers.push(self.number),
                    ..self.start(Command::Nothing)
                }
            } else {
                Terminal { phase: Phase::Broken, ..self }
            },
            Phase::Sixels => if crate::number::is_digit(byte) {
                self.digit(byte)
            } else if byte == SEPARATOR {
                self.separator()
            } else if self.finish().phase is Sixels {
                self.finish().control(byte)
            } else {
                self.finish()
            },
            Phase::Ending => Terminal {
                phase: if byte == ST {
                    Phase::Done
                } else {
                    Phase::Broken
                },
                ..self
            },
            Phase::Done => Terminal { phase: Phase::Broken, ..self },
            Phase::Broken => self,
        }
    }

    /// The terminal after some bytes.
    pub open spec fn read(self, bytes: Seq<u8>) -> Terminal
        decreases bytes.len(),
    {
        if bytes.len() == 0 {
            self
        } else {
            self.read(bytes.drop_last()).step(bytes.last())
        }
    }
}

/// Reading two strings of bytes is reading one after the other.
proof fn read_concat(terminal: Terminal, a: Seq<u8>, b: Seq<u8>)
    ensures
        terminal.read(a + b) == terminal.read(a).read(b),
    decreases b.len(),
{
    if b.len() == 0 {
        assert(a + b =~= a);
    } else {
        assert((a + b).drop_last() =~= a + b.drop_last());
        assert((a + b).last() == b.last());
        read_concat(terminal, a, b.drop_last());
    }
}

/// Reading one byte is a step.
proof fn read_one(terminal: Terminal, byte: u8)
    ensures
        terminal.read(seq![byte]) == terminal.step(byte),
{
    let bytes = seq![byte];
    assert(bytes.drop_last() =~= Seq::<u8>::empty());
    assert(terminal.read(bytes.drop_last()) == terminal);
}

/// Reading one byte more.
proof fn read_push(terminal: Terminal, bytes: Seq<u8>, byte: u8)
    ensures
        terminal.read(bytes + seq![byte]) == terminal.read(bytes).step(byte),
{
    read_concat(terminal, bytes, seq![byte]);
    read_one(terminal.read(bytes), byte);
}

/// A terminal that reads numbers reads a number in decimal.
proof fn read_decimal(terminal: Terminal, n: nat)
    requires
        terminal.phase is Introducer || terminal.phase is Sixels,
        terminal.number == 0,
    ensures
        terminal.read(crate::number::decimal(n)) == (Terminal { number: n, ..terminal }),
    decreases n,
{
    if n < 10 {
        read_one(terminal, crate::number::digit(n));
    } else {
        read_decimal(terminal, n / 10);
        let bytes = crate::number::decimal(n / 10);
        let last = crate::number::digit(n % 10);
        assert(crate::number::decimal(n) =~= bytes + seq![last]);
        read_push(terminal, bytes, last);
    }
}

/// A terminal after the introducer and the raster attributes.
spec fn introduced(header: Header) -> Terminal {
    Terminal {
        phase: Phase::Sixels,
        introducer: seq![
            header.aspect_ratio.p1() as nat,
            header.background_mode.p2() as nat,
            0,
        ],
        raster: seq![
            header.aspect_ratio.vertical() as nat,
            1,
            header.width as nat,
            header.height as nat,
        ],
        ..blank_terminal()
    }
}

/// A terminal reads a number, and the separator after it.
proof fn read_number(terminal: Terminal, bytes: Seq<u8>, n: nat)
    requires
        terminal.read(bytes).phase is Introducer || terminal.read(bytes).phase is Sixels,
        terminal.read(bytes).number == 0,
    ensures
        terminal.read(bytes + crate::number::decimal(n)) == (Terminal {
            number: n,
            ..terminal.read(bytes)
        }),
        terminal.read(bytes + crate::number::decimal(n) + seq![SEPARATOR]) == (Terminal {
            numbers: terminal.read(bytes).numbers.push(n),
            ..terminal.read(bytes)
        }),
{
    read_concat(terminal, bytes, crate::number::decimal(n));
    read_decimal(terminal.read(bytes), n);
    read_push(terminal, bytes + crate::number::decimal(n), SEPARATOR);
}

/// The bytes of the introducer, up to the raster attributes.
spec fn introducer_start(header: Header) -> Seq<u8> {
    seq![ESC, DCS] + crate::number::decimal(header.aspect_ratio.p1() as nat) + seq![SEPARATOR]
        + crate::number::decimal(header.background_mode.p2() as nat) + seq![
        SEPARATOR,
        DIGIT_ZERO,
        SIXEL,
        RASTER,
    ]
}

/// A terminal reads the introducer.
proof fn read_introducer_start(header: Header)
    ensures
        blank_terminal().read(introducer_start(header)) == (Terminal {
            command: Command::Raster,
            raster: Seq::empty(),
            ..introduced(header)
        }),
{
    let t = blank_terminal();
    let p1 = header.aspect_ratio.p1() as nat;
    let p2 = header.background_mode.p2() as nat;
    let b0 = seq![ESC, DCS];
    assert(b0 =~= Seq::<u8>::empty() + seq![ESC] + seq![DCS]);
    read_push(t, Seq::empty(), ESC);
    read_push(t, Seq::<u8>::empty() + seq![ESC], DCS);
    assert(t.read(b0) == (Terminal { phase: Phase::Introducer, ..t }));
    read_number(t, b0, p1);
    let b1 = b0 + crate::number::decimal(p1) + seq![SEPARATOR];
    read_number(t, b1, p2);
    let b2 = b1 + crate::number::decimal(p2) + seq![SEPARATOR];
    let b3 = b2 + seq![DIGIT_ZERO];
    let b4 = b3 + seq![SIXEL];
    read_push(t, b2, DIGIT_ZERO);
    read_push(t, b3, SIXEL);
    read_push(t, b4, RASTER);
    assert(b4 + seq![RASTER] =~= introducer_start(header));
    assert(Seq::<nat>::empty().push(p1).push(p2).push(0) =~= introduced(header).introducer);
}

/// A terminal reads the introducer and the raster attributes.
proof fn read_introducer(header: Header)
    ensures
        blank_terminal().read(crate::bands::introducer(header)).phase is Sixels,
        blank_terminal().read(crate::bands::introducer(header)).finish() == introduced(header),
{
    let t = blank_terminal();
    let vertical = header.aspect_ratio.vertical() as nat;
    let width = header.width as nat;
    let height = header.height as nat;
    read_introducer_start(header);
    let b0 = introducer_start(header);
    read_number(t, b0, vertical);
    let b1 = b0 + crate::number::decimal(vertical) + seq![SEPARATOR];
    read_number(t, b1, 1);
    let b2 = b1 + crate::number::decimal(1) + seq![SEPARATOR];
    read_number(t, b2, width);
    let b3 = b2 + crate::number::decimal(width) + seq![SEPARATOR];
    read_number(t, b3, height);
    assert(b3 + crate::number::decimal(height) == crate::bands::introducer(header));
    assert(Seq::<nat>::empty().push(vertical).push(1).push(width).push(height) =~= introduced(
        header,
    ).raster);
}

/// The percents of a color.
pub open spec fn percents(color: Rgb) -> (nat, nat, nat) {
    (
        crate::bands::percent(color.r),
        crate::bands::percent(color.g),
        crate::bands::percent(color.b),
    )
}

/// The registers that hold the first `count` colors of `palette`.
pub open spec fn registers_of(palette: Seq<Rgb>, count: nat) -> Map<nat, (nat, nat, nat)> {
    Map::new(|i: nat| i < count, |i: nat| percents(palette[i as int]))
}

/// A command or a sixel goes by the finished command before it.
proof fn read_finished(terminal: Terminal, bytes: Seq<u8>)
    requires
        terminal.phase is Sixels,
        bytes.len() > 0,
        !crate::number::is_digit(bytes[0]),
        bytes[0] != SEPARATOR,
    ensures
        terminal.read(bytes) == terminal.finish().read(bytes),
    decreases bytes.len(),
{
    if bytes.len() == 1 {
        assert(bytes =~= seq![bytes[0]]);
        read_one(terminal, bytes[0]);
        read_one(terminal.finish(), bytes[0]);
        if terminal.finish().phase is Sixels {
            assert(terminal.finish().finish() == terminal.finish());
        }
    } else {
        assert(bytes.drop_last()[0] == bytes[0]);
        read_finished(terminal, bytes.drop_last());
    }
}

/// A terminal reads the definition of a color.
proof fn read_definition(terminal: Terminal, index: nat, color: Rgb)
    requires
        terminal.phase is Sixels,
        terminal.finish().phase is Sixels,
    ensures
        terminal.read(crate::bands::definition(index, color)).phase is Sixels,
        terminal.read(crate::bands::definition(index, color)).finish() == (Terminal {
            color: index,
            registers: terminal.finish().registers.insert(index, percents(color)),
            ..terminal.finish()
        }),
{
    let t = terminal.finish();
    let (r, g, b) = percents(color);
    let b0 = seq![COLOR];
    read_one(t, COLOR);
    assert(t.finish() == t);
    assert(t.read(b0) == t.start(Command::Color));
    read_number(t, b0, index);
    let b1 = b0 + crate::number::decimal(index) + seq![SEPARATOR];
    let b2 = b1 + seq![RGB_PERCENT];
    let b3 = b2 + seq![SEPARATOR];
    read_push(t, b1, RGB_PERCENT);
    read_push(t, b2, SEPARATOR);
    read_number(t, b3, r);
    let b4 = b3 + crate::number::decimal(r) + seq![SEPARATOR];
    read_number(t, b4, g);
    let b5 = b4 + crate::number::decimal(g) + seq![SEPARATOR];
    read_number(t, b5, b);
    let whole = crate::bands::definition(index, color);
    assert(b3 =~= b0 + crate::number::decimal(index) + seq![SEPARATOR, RGB_PERCENT, SEPARATOR]);
    assert(b5 + crate::number::decimal(b) == whole);
    assert(whole[0] == COLOR);
    assert(t.read(whole).numbers =~= seq![index, 2, r, g]);
    read_finished(terminal, whole);
}

/// A terminal reads the definitions of colors.
proof fn read_definitions(terminal: Terminal, palette: Seq<Rgb>, count: nat)
    requires
        terminal.phase is Sixels,
        terminal.finish().phase is Sixels,
        terminal.finish().registers == Map::<nat, (nat, nat, nat)>::empty(),
    ensures
        ({
            let after = terminal.read(crate::bands::definitions(palette, count));
            &&& after.phase is Sixels
            &&& after.finish() == (Terminal {
                color: after.finish().color,
                registers: registers_of(palette, count),
                ..terminal.finish()
            })
        }),
    decreases count,
{
    if count == 0 {
        assert(registers_of(palette, 0) =~= Map::<nat, (nat, nat, nat)>::empty());
    } else {
        let last = (count - 1) as nat;
        read_definitions(terminal, palette, last);
        let before = crate::bands::definitions(palette, last);
        let one = crate::bands::definition(last, palette[last as int]);
        read_concat(terminal, before, one);
        read_definition(terminal.read(before), last, palette[last as int]);
        assert(registers_of(palette, count) =~= registers_of(palette, last).insert(
            last,
            percents(palette[last as int]),
        ));
    }
}

impl Terminal {
    /// Whether no command is in progress among the sixels.
    spec fn settled(self) -> bool {
        &&& self.phase is Sixels
        &&& self.command is Nothing
        &&& self.numbers == Seq::<nat>::empty()
        &&& self.number == 0
        &&& self.repeat == 1
    }
}

/// `count` sixels of the value `bits`.
spec fn equal_sixels(count: nat, bits: u8) -> Seq<u8> {
    Seq::new(count, |i: int| bits)
}

/// Painting two rows of sixels is painting one after the other.
proof fn paint_concat(terminal: Terminal, a: Seq<u8>, b: Seq<u8>)
    ensures
        terminal.paint(a).paint(b) == terminal.paint(a + b),
{
    let first = terminal.paint(a);
    let twice = first.paint(b);
    let once = terminal.paint(a + b);
    assert forall|place: (int, int)| #[trigger] terminal.lights(a + b, place) == (terminal.lights(
        a,
        place,
    ) || first.lights(b, place)) by {
        let column = place.0 - terminal.x;
        if 0 <= column < a.len() {
            assert((a + b)[column] == a[column]);
        } else if a.len() <= column < a.len() + b.len() {
            assert((a + b)[column] == b[column - a.len()]);
        }
    }
    assert(twice.pixels =~= once.pixels);
}

/// Painting nothing changes nothing.
proof fn paint_nothing(terminal: Terminal)
    ensures
        terminal.paint(Seq::empty()) == terminal,
{
    assert(terminal.paint(Seq::empty()).pixels =~= terminal.pixels);
}

/// A terminal reads sixels one by one.
proof fn read_equal_sixels(terminal: Terminal, count: nat, bits: u8)
    requires
        terminal.settled(),
        bits < 64,
    ensures
        terminal.read(Seq::new(count, |i: int| (EMPTY_SIXEL + bits) as u8)) == terminal.paint(
            equal_sixels(count, bits),
        ),
    decreases count,
{
    let byte = (EMPTY_SIXEL + bits) as u8;
    let bytes = Seq::new(count, |i: int| byte);
    if count == 0 {
        assert(equal_sixels(count, bits) =~= Seq::<u8>::empty());
        paint_nothing(terminal);
    } else {
        let last = (count - 1) as nat;
        read_equal_sixels(terminal, last, bits);
        let before = Seq::new(last, |i: int| byte);
        assert(bytes =~= before + seq![byte]);
        read_push(terminal, before, byte);
        let painted = terminal.paint(equal_sixels(last, bits));
        assert(painted.settled());
        assert(Seq::new(painted.repeat, |i: int| (byte - EMPTY_SIXEL) as u8) =~= equal_sixels(
            1,
            bits,
        ));
        assert(painted.step(byte) == painted.paint(equal_sixels(1, bits)));
        paint_concat(terminal, equal_sixels(last, bits), equal_sixels(1, bits));
        assert(equal_sixels(last, bits) + equal_sixels(1, bits) =~= equal_sixels(count, bits));
    }
}

/// A terminal reads a run of sixels.
proof fn read_run(terminal: Terminal, count: nat, bits: u8)
    requires
        terminal.settled(),
        bits < 64,
        0 < count <= SIXEL_REPEAT_MAX,
    ensures
        terminal.read(crate::runs::run_bytes(count, bits)) == terminal.paint(
            equal_sixels(count, bits),
        ),
{
    let byte = (EMPTY_SIXEL + bits) as u8;
    if count > 3 {
        let b0 = seq![REPEAT];
        let b1 = b0 + crate::number::decimal(count);
        read_one(terminal, REPEAT);
        assert(terminal.finish() == terminal);
        read_number(terminal, b0, count);
        read_push(terminal, b1, byte);
        let ready = Terminal { repeat: count, ..terminal };
        assert(terminal.read(b1).finish() == ready);
        assert(Seq::new(count, |i: int| (byte - EMPTY_SIXEL) as u8) =~= equal_sixels(count, bits));
        let painted = terminal.read(b1).step(byte);
        assert(painted.pixels =~= terminal.paint(equal_sixels(count, bits)).pixels) by {
            assert forall|place: (int, int)| #[trigger]
                ready.lights(equal_sixels(count, bits), place) == terminal.lights(
                equal_sixels(count, bits),
                place,
            ) by {}
        }
    } else {
        read_equal_sixels(terminal, count, bits);
        assert(crate::runs::run_bytes(count, bits) =~= Seq::new(
            count,
            |i: int| (EMPTY_SIXEL + bits) as u8,
        ));
    }
}

/// A terminal reads runs of sixels.
proof fn read_runs(terminal: Terminal, sixels: Seq<u8>)
    requires
        terminal.settled(),
        forall|x: int| 0 <= x < sixels.len() ==> #[trigger] sixels[x] < 64,
    ensures
        terminal.read(crate::runs::run_length_encoded(sixels)) == terminal.paint(sixels),
    decreases sixels.len(),
{
    if sixels.len() == 0 {
        assert(sixels =~= Seq::<u8>::empty());
        paint_nothing(terminal);
    } else {
        let most = SIXEL_REPEAT_MAX as nat;
        crate::runs::run_length_is_a_run(sixels, most);
        let count = crate::runs::run_length(sixels, most);
        let first = equal_sixels(count, sixels[0]);
        let rest = sixels.skip(count as int);
        assert(sixels =~= first + rest) by {
            assert forall|i: int| 0 <= i < count implies sixels[i] == first[i] by {
                assert(sixels[i] == sixels[0]);
            }
        }
        assert forall|x: int| 0 <= x < rest.len() implies #[trigger] rest[x] < 64 by {
            assert(rest[x] == sixels[x + count]);
        }
        assert(sixels[0] < 64);
        read_concat(
            terminal,
            crate::runs::run_bytes(count, sixels[0]),
            crate::runs::run_length_encoded(rest),
        );
        read_run(terminal, count, sixels[0]);
        read_runs(terminal.paint(first), rest);
        paint_concat(terminal, first, rest);
    }
}

/// Empty columns at the end of a row paint nothing.
proof fn paint_extent(terminal: Terminal, row: Seq<u8>)
    ensures
        terminal.paint(row.take(crate::bands::extent(row) as int)).pixels == terminal.paint(
            row,
        ).pixels,
{
    crate::bands::empty_past_extent(row);
    let short = row.take(crate::bands::extent(row) as int);
    assert forall|place: (int, int)| #[trigger] terminal.lights(row, place) == terminal.lights(
        short,
        place,
    ) by {
        let column = place.0 - terminal.x;
        if 0 <= column < short.len() {
            assert(short[column] == row[column]);
        } else if short.len() <= column < row.len() {
            assert(row[column] == 0);
            assert(!lit(0, place.1 - terminal.y));
        }
    }
    assert(terminal.paint(short).pixels =~= terminal.paint(row).pixels);
}

/// A terminal reads the pass over one color of a band.
proof fn read_color_pass(terminal: Terminal, color: nat, row: Seq<u8>)
    requires
        terminal.phase is Sixels,
        terminal.finish().settled(),
        terminal.finish().x == 0,
        forall|x: int| 0 <= x < row.len() ==> #[trigger] row[x] < 64,
    ensures
        ({
            let after = terminal.read(crate::bands::color_pass(color, row));
            &&& after.phase is Sixels
            &&& after.finish() == (Terminal {
                color: after.finish().color,
                pixels: (Terminal { color, ..terminal.finish() }).paint(row).pixels,
                ..terminal.finish()
            })
        }),
{
    let t = terminal.finish();
    let colored = Terminal { color, ..t };
    let end = crate::bands::extent(row);
    paint_extent(colored, row);
    crate::bands::empty_past_extent(row);
    let short = row.take(end as int);
    if end == 0 {
        assert(short =~= Seq::<u8>::empty());
        paint_nothing(colored);
    } else {
        let whole = crate::bands::color_pass(color, row);
        let runs = crate::runs::run_length_encoded(short);
        let b0 = seq![COLOR];
        let b1 = b0 + crate::number::decimal(color);
        let b2 = b1 + runs;
        assert(whole == b2 + seq![RETURN]);
        assert(whole[0] == COLOR);
        read_finished(terminal, whole);
        assert(t.finish() == t);
        read_one(t, COLOR);
        read_number(t, b0, color);
        read_concat(t, b1, runs);
        assert forall|x: int| 0 <= x < short.len() implies #[trigger] short[x] < 64 by {
            assert(short[x] == row[x]);
        }
        crate::runs::run_length_is_a_run(short, SIXEL_REPEAT_MAX as nat);
        let count = crate::runs::run_length(short, SIXEL_REPEAT_MAX as nat);
        assert(short[0] < 64);
        assert(runs[0] == crate::runs::run_bytes(count, short[0])[0]);
        assert(runs[0] == REPEAT || runs[0] == EMPTY_SIXEL + short[0]);
        read_finished(t.read(b1), runs);
        assert(t.read(b1).finish() == colored);
        read_runs(colored, short);
        read_push(t, b2, RETURN);
        let painted = colored.paint(short);
        assert(painted.finish() == painted);
    }
}

/// The pixels of the first `bands` bands, and those of the first `colors` colors
/// of the band after them.
spec fn painted_so_far(
    cells: Seq<Option<u8>>,
    width: int,
    height: int,
    bands: int,
    colors: int,
) -> Map<(int, int), nat> {
    Map::new(
        |place: (int, int)|
            {
                &&& 0 <= place.0 < width
                &&& 0 <= place.1 < height
                &&& cells[place.1 * width + place.0] matches Some(index) && (place.1 < 6 * bands || (
                place.1 < 6 * bands + 6 && index < colors))
            },
        |place: (int, int)| cells[place.1 * width + place.0]->0 as nat,
    )
}

/// The opaque pixels of an image, by column and row, with the palette index of
/// each.
pub open spec fn picture(cells: Seq<Option<u8>>, width: int, height: int) -> Map<
    (int, int),
    nat,
> {
    Map::new(
        |place: (int, int)|
            {
                &&& 0 <= place.0 < width
                &&& 0 <= place.1 < height
                &&& cells[place.1 * width + place.0] is Some
            },
        |place: (int, int)| cells[place.1 * width + place.0]->0 as nat,
    )
}

/// A row of a sixel is lit if the pixel there has the color.
proof fn sixel_rows(
    cells: Seq<Option<u8>>,
    width: int,
    y0: int,
    rows: int,
    color: int,
    x: int,
    row: int,
)
    requires
        rows <= 6,
    ensures
        crate::bands::sixel_value(cells, width, y0, rows, color, x) < 64,
        lit(crate::bands::sixel_value(cells, width, y0, rows, color, x), row) <==> (0 <= row < rows
            && crate::bands::has_color(cells, width, y0 + row, x, color)),
{
    if row == 0 {
    } else if row == 1 {
    } else if row == 2 {
    } else if row == 3 {
    } else if row == 4 {
    } else if row == 5 {
    }
}

/// A pass paints the pixels of its color.
proof fn pass_paints_its_color(
    terminal: Terminal,
    cells: Seq<Option<u8>>,
    width: int,
    height: int,
    band: int,
    color: int,
)
    requires
        terminal.x == 0,
        terminal.y == 6 * band,
        terminal.color == color,
        0 <= width,
        0 <= band,
        0 <= color,
        terminal.pixels == painted_so_far(cells, width, height, band, color),
    ensures
        terminal.paint(crate::bands::sixel_row(cells, width, height, band, color)).pixels
            == painted_so_far(cells, width, height, band, color + 1),
{
    let row = crate::bands::sixel_row(cells, width, height, band, color);
    let rows = crate::bands::band_rows(height, band);
    assert forall|place: (int, int)| #[trigger] terminal.lights(row, place) == (0 <= place.0 < width
        && 6 * band <= place.1 < 6 * band + 6 && place.1 < height && crate::bands::has_color(
        cells,
        width,
        place.1,
        place.0,
        color,
    )) by {
        if 0 <= place.0 < width {
            sixel_rows(cells, width, 6 * band, rows, color, place.0, place.1 - 6 * band);
            assert(6 * band + (place.1 - 6 * band) == place.1);
        }
    }
    assert(terminal.paint(row).pixels =~= painted_so_far(cells, width, height, band, color + 1));
}

/// Whether a terminal has read the first `bands` bands, and the first `colors`
/// colors of the band after them.
spec fn has_read(
    terminal: Terminal,
    start: Terminal,
    cells: Seq<Option<u8>>,
    width: int,
    height: int,
    bands: int,
    colors: int,
) -> bool {
    &&& terminal.phase is Sixels
    &&& terminal.finish() == (Terminal {
        color: terminal.finish().color,
        y: 6 * bands,
        pixels: painted_so_far(cells, width, height, bands, colors),
        ..start
    })
}

/// A terminal reads the colors of a band.
proof fn read_color_passes(
    terminal: Terminal,
    start: Terminal,
    cells: Seq<Option<u8>>,
    width: int,
    height: int,
    band: int,
    colors: nat,
)
    requires
        start.settled(),
        start.x == 0,
        0 <= width,
        0 <= band,
        has_read(terminal, start, cells, width, height, band, 0),
    ensures
        has_read(
            terminal.read(crate::bands::color_passes(cells, width, height, band, colors)),
            start,
            cells,
            width,
            height,
            band,
            colors as int,
        ),
    decreases colors,
{
    if colors > 0 {
        let last = (colors - 1) as nat;
        read_color_passes(terminal, start, cells, width, height, band, last);
        let before = crate::bands::color_passes(cells, width, height, band, last);
        let row = crate::bands::sixel_row(cells, width, height, band, last as int);
        let pass = crate::bands::color_pass(last, row);
        read_concat(terminal, before, pass);
        assert forall|x: int| 0 <= x < row.len() implies #[trigger] row[x] < 64 by {
            sixel_rows(
                cells,
                width,
                6 * band,
                crate::bands::band_rows(height, band),
                last as int,
                x,
                0,
            );
        }
        let reached = terminal.read(before);
        read_color_pass(reached, last, row);
        pass_paints_its_color(
            Terminal { color: last, ..reached.finish() },
            cells,
            width,
            height,
            band,
            last as int,
        );
    }
}

/// A terminal reads bands.
proof fn read_bands(
    terminal: Terminal,
    start: Terminal,
    cells: Seq<Option<u8>>,
    width: int,
    height: int,
    colors: nat,
    count: nat,
)
    requires
        start.settled(),
        start.x == 0,
        cells.len() == width * height,
        0 <= width,
        forall|i: int|
            0 <= i < cells.len() ==> (#[trigger] cells[i] matches Some(index) ==> index < colors),
        has_read(terminal, start, cells, width, height, 0, 0),
    ensures
        has_read(
            terminal.read(crate::bands::band_bytes(cells, width, height, colors, count)),
            start,
            cells,
            width,
            height,
            count as int,
            0,
        ),
    decreases count,
{
    if count > 0 {
        let last = (count - 1) as nat;
        read_bands(terminal, start, cells, width, height, colors, last);
        let before = crate::bands::band_bytes(cells, width, height, colors, last);
        let passes = crate::bands::color_passes(cells, width, height, last as int, colors);
        read_concat(terminal, before, passes);
        read_color_passes(
            terminal.read(before),
            start,
            cells,
            width,
            height,
            last as int,
            colors,
        );
        read_push(terminal, before + passes, NEXT_BAND);
        let full = painted_so_far(cells, width, height, last as int, colors as int);
        let next = painted_so_far(cells, width, height, count as int, 0);
        assert forall|place: (int, int)|
            full.dom().contains(place) == #[trigger] next.dom().contains(place) by {
            if 0 <= place.0 < width && 0 <= place.1 < height {
                let i = place.1 * width + place.0;
                assert(0 <= i < width * height) by (nonlinear_arith)
                    requires
                        0 <= place.0 < width,
                        0 <= place.1 < height,
                        i == place.1 * width + place.0,
                ;
                assert(cells[i] matches Some(index) ==> index < colors);
            }
        }
        assert(full =~= next);
    }
}

/// Whether a terminal that reads `bytes` shows an image: the registers hold the
/// colors of the palette in percents, each opaque pixel has the register of its
/// index, no other pixel is painted, and the introducer and the raster attributes
/// say what the header says.
pub open spec fn displays(
    bytes: Seq<u8>,
    palette: Seq<Rgb>,
    cells: Seq<Option<u8>>,
    header: Header,
) -> bool {
    let shown = blank_terminal().read(bytes);
    &&& shown.phase is Done
    &&& shown.registers == registers_of(palette, palette.len())
    &&& shown.pixels == picture(cells, header.width as int, header.height as int)
    &&& shown.introducer == seq![
        header.aspect_ratio.p1() as nat,
        header.background_mode.p2() as nat,
        0nat,
    ]
    &&& shown.raster == seq![
        header.aspect_ratio.vertical() as nat,
        1nat,
        header.width as nat,
        header.height as nat,
    ]
}

/// A terminal that reads the SIXEL of an image shows the image. It comes to the
/// end, so no repeat count is above [`SIXEL_REPEAT_MAX`].
pub proof fn a_terminal_shows_the_image(palette: Seq<Rgb>, cells: Seq<Option<u8>>, header: Header)
    requires
        cells.len() == header.width * header.height,
        forall|i: int|
            0 <= i < cells.len() ==> (#[trigger] cells[i] matches Some(index) ==> index
                < palette.len()),
    ensures
        displays(crate::bands::sixel_of(palette, cells, header), palette, cells, header),
{
    let t = blank_terminal();
    let width = header.width as int;
    let height = header.height as int;
    let colors = palette.len();
    let count = crate::bands::band_count(height) as nat;
    let intro = crate::bands::introducer(header);
    let defined = crate::bands::definitions(palette, colors);
    let bands = crate::bands::band_bytes(cells, width, height, colors, count);
    read_introducer(header);
    read_concat(t, intro, defined);
    read_definitions(t.read(intro), palette, colors);
    let ready = t.read(intro + defined);
    let start = ready.finish();
    assert(painted_so_far(cells, width, height, 0, 0) =~= Map::<(int, int), nat>::empty());
    assert(has_read(ready, start, cells, width, height, 0, 0));
    read_bands(ready, start, cells, width, height, colors, count);
    read_concat(t, intro + defined, bands);
    let body = intro + defined + bands;
    assert(crate::bands::sixel_of(palette, cells, header) =~= body + seq![ESC] + seq![ST]);
    read_push(t, body, ESC);
    read_push(t, body + seq![ESC], ST);
    assert(painted_so_far(cells, width, height, count as int, 0) =~= picture(
        cells,
        width,
        height,
    ));
}

} // verus!
