//! Output targets and the test runner.

use crate::platform::{exit_success, exit_write, PortWrite, QemuExitCode};
use crate::text::{decimal, decimal_text};
use vstd::prelude::*;
use vstd::string::{StrSliceExecFns, StringExecFns};
use vstd::utf8::encode_utf8;

verus! {

/// An output target of the kernel.
pub trait KernelWriter {
    /// The bytes written so far.
    spec fn output(&self) -> Seq<u8>;

    /// These bytes were handed, as one piece, to what stands behind the target.
    spec fn took(&self, bytes: Seq<u8>) -> bool;

    /// Writes one byte, as it is.
    fn write_byte(&mut self, byte: u8)
        ensures
            final(self).output() == old(self).output().push(byte),
            final(self).took(seq![byte]),
            forall|b: Seq<u8>| old(self).took(b) ==> #[trigger] final(self).took(b),
    ;

    /// Writes a text, in UTF-8.
    fn write_str(&mut self, s: &str)
        ensures
            final(self).output() == old(self).output() + encode_utf8(s@),
            final(self).took(encode_utf8(s@)),
            forall|b: Seq<u8>| old(self).took(b) ==> #[trigger] final(self).took(b),
    ;
}

/// The encoding of two texts in a row is that of the one and then that of the other.
pub proof fn lemma_encoded_in_parts(a: Seq<char>, b: Seq<char>)
    ensures
        encode_utf8(a + b) == encode_utf8(a) + encode_utf8(b),
    decreases a.len(),
{
    if a.len() == 0 {
        assert(a + b =~= b);
    } else {
        lemma_encoded_in_parts(a.drop_first(), b);
        assert((a + b).drop_first() =~= a.drop_first() + b);
    }
}

/// What can happen while tests run.
pub enum Event {
    /// A text was handed to the output, whether or not there is a target for it.
    Said(Seq<char>),
    /// The test of this name was run and came back.
    Ran(Seq<char>),
}

/// What happened so far, in order.
pub struct RunLog {
    events: Ghost<Seq<Event>>,
}

impl View for RunLog {
    type V = Seq<Event>;

    closed spec fn view(&self) -> Seq<Event> {
        self.events@
    }
}

impl RunLog {
    /// Nothing happened yet.
    fn new() -> (l: Self)
        ensures
            l@ == Seq::<Event>::empty(),
    {
        RunLog { events: Ghost(Seq::empty()) }
    }

    /// Notes that a text was handed to the output.
    fn said(&mut self, text: &str)
        ensures
            final(self)@ == old(self)@.push(Event::Said(text@)),
    {
        self.events = Ghost(self.events@.push(Event::Said(text@)));
    }

    /// Notes that a test was run, which it must have come back for.
    pub fn noted<T: TestCase>(&mut self, test: &T)
        requires
            test.done(),
        ensures
            final(self)@ == old(self)@.push(Event::Ran(test.title())),
    {
        self.events = Ghost(self.events@.push(Event::Ran(test.title())));
    }
}

/// What a test does. Whatever has this can be run and reported: see [`Testable`].
pub trait TestCase {
    /// The name that the test is shown under.
    spec fn title(&self) -> Seq<char>;

    /// The test can be performed.
    spec fn doable(&self) -> bool;

    /// The test was performed and came back: a test that fails does not.
    spec fn done(&self) -> bool;

    /// Performs the test once.
    fn perform(&self)
        requires
            self.doable(),
        ensures
            self.done(),
    ;

    /// The name that the test is shown under.
    fn shown_as(&self) -> (n: &'static str)
        ensures
            n@ == self.title(),
    ;
}

/// A test as the runner takes it.
pub trait Testable {
    /// The name that the test is shown under.
    spec fn label(&self) -> Seq<char>;

    /// The test can be run.
    spec fn ready(&self) -> bool;

    /// The test was run and came back: a test that fails does not.
    spec fn ran(&self) -> bool;

    /// Runs the test once and notes it.
    fn run(&self, log: &mut RunLog)
        requires
            self.ready(),
        ensures
            self.ran(),
            final(log)@ == old(log)@.push(Event::Ran(self.label())),
    ;

    /// The name that the test is shown under.
    fn name(&self) -> (n: &'static str)
        ensures
            n@ == self.label(),
    ;
}

impl<T: TestCase> Testable for T {
    open spec fn label(&self) -> Seq<char> {
        self.title()
    }

    open spec fn ready(&self) -> bool {
        self.doable()
    }

    open spec fn ran(&self) -> bool {
        self.done()
    }

    fn run(&self, log: &mut RunLog) {
        self.perform();
        log.noted(self);
    }

    fn name(&self) -> (n: &'static str) {
        self.shown_as()
    }
}

/// A function as a test case.
pub struct Case<F: Fn()> {
    /// The name that it is shown under.
    pub name: &'static str,
    /// What it does.
    pub body: F,
}

impl<F: Fn()> Case<F> {
    /// The function `body` as a test case under the name that `naming` gives, which is asked
    /// once.
    pub fn of<N: Fn() -> &'static str>(body: F, naming: N) -> (c: Self)
        requires
            call_requires(naming, ()),
        ensures
            c.body == body,
            call_ensures(naming, (), c.name),
            c.label() == c.name@,
            c.ready() == call_requires(body, ()),
            c.ran() == call_ensures(body, (), ()),
    {
        let name = naming();
        Case { name, body }
    }
}

impl<F: Fn()> TestCase for Case<F> {
    open spec fn title(&self) -> Seq<char> {
        self.name@
    }

    open spec fn doable(&self) -> bool {
        call_requires(self.body, ())
    }

    open spec fn done(&self) -> bool {
        call_ensures(self.body, (), ())
    }

    fn perform(&self) {
        (self.body)();
    }

    fn shown_as(&self) -> (n: &'static str) {
        self.name
    }
}

/// The place where the output target is registered. It remembers what happened on it.
pub struct WriterCell<W: KernelWriter> {
    writer: Option<W>,
    log: RunLog,
}

impl<W: KernelWriter> WriterCell<W> {
    /// The registered target, if there is one.
    pub closed spec fn target(&self) -> Option<W> {
        self.writer
    }

    /// What happened on it so far.
    pub closed spec fn events(&self) -> Seq<Event> {
        self.log@
    }

    /// A cell without a target.
    pub fn new() -> (c: Self)
        ensures
            c.target() is None,
            c.events() == Seq::<Event>::empty(),
    {
        WriterCell { writer: None, log: RunLog::new() }
    }

    /// The registered target, if there is one.
    pub fn writer(&self) -> (w: Option<&W>)
        ensures
            match w {
                Some(w) => self.target() == Some(*w),
                None => self.target() is None,
            },
    {
        self.writer.as_ref()
    }
}

/// `after` is `before` with `text` written to its target, if there is one.
pub open spec fn wrote<W: KernelWriter>(
    before: &WriterCell<W>,
    after: &WriterCell<W>,
    text: Seq<char>,
) -> bool {
    match (before.target(), after.target()) {
        (Some(b), Some(a)) => a.output() == b.output() + encode_utf8(text),
        (None, None) => true,
        _ => false,
    }
}

/// The target of `cell`, if there is one, was handed `text` as one piece.
pub open spec fn handed_over<W: KernelWriter>(cell: &WriterCell<W>, text: Seq<char>) -> bool {
    cell.target() matches Some(w) ==> w.took(encode_utf8(text))
}

/// The target of `cell`, if there is one, was handed each text that was said in `events`.
pub open spec fn all_handed_over<W: KernelWriter>(
    cell: &WriterCell<W>,
    events: Seq<Event>,
) -> bool {
    forall|i: int|
        0 <= i < events.len() ==> (#[trigger] events[i] matches Event::Said(text) ==> handed_over(
            cell,
            text,
        ))
}

/// Whatever the target of `before` was handed, that of `after` was handed too.
pub open spec fn took_no_less<W: KernelWriter>(
    before: &WriterCell<W>,
    after: &WriterCell<W>,
) -> bool {
    match (before.target(), after.target()) {
        (Some(b), Some(a)) => forall|bytes: Seq<u8>| b.took(bytes) ==> #[trigger] a.took(bytes),
        (None, None) => true,
        _ => false,
    }
}

/// Registers `w` as the output target.
pub fn register_writer<W: KernelWriter>(cell: &mut WriterCell<W>, w: W)
    ensures
        final(cell).target() == Some(w),
        final(cell).events() == old(cell).events(),
{
    cell.writer = Some(w);
}

/// Writes `text` to the registered target; does nothing where there is none.
pub fn with_writer<W: KernelWriter>(cell: &mut WriterCell<W>, text: &str)
    ensures
        wrote(old(cell), final(cell), text@),
        handed_over(final(cell), text@),
        took_no_less(old(cell), final(cell)),
        final(cell).events() == old(cell).events().push(Event::Said(text@)),
{
    match &mut cell.writer {
        Some(w) => {
            w.write_str(text);
        },
        None => {},
    }
    cell.log.said(text);
}

/// The line that opens a run of `n` tests.
pub open spec fn opening(n: int) -> Seq<char> {
    "\nRunning "@ + decimal_text(n) + " test(s)\n"@
}

/// What a run writes for one test.
pub open spec fn passed(name: Seq<char>) -> Seq<char> {
    "  "@ + name + "..."@ + "[ok]\n"@
}

/// What a run writes for the first `n` tests, in order.
pub open spec fn report(tests: Seq<&dyn Testable>, n: int) -> Seq<char>
    decreases n,
{
    if n <= 0 {
        Seq::empty()
    } else {
        report(tests, n - 1) + passed(tests[n - 1].label())
    }
}

/// Every test can be run.
pub open spec fn all_ready(tests: Seq<&dyn Testable>) -> bool {
    forall|i: int| 0 <= i < tests.len() ==> (#[trigger] tests[i]).ready()
}

/// Every test was run and came back.
pub open spec fn all_ran(tests: Seq<&dyn Testable>) -> bool {
    forall|i: int| 0 <= i < tests.len() ==> (#[trigger] tests[i]).ran()
}

/// The line that a test is announced with.
pub open spec fn announced(name: Seq<char>) -> Seq<char> {
    "  "@ + name + "..."@
}

/// What happens for the first `n` tests: each in turn is announced, run once, and
/// acknowledged.
pub open spec fn course(tests: Seq<&dyn Testable>, n: int) -> Seq<Event>
    decreases n,
{
    if n <= 0 {
        Seq::empty()
    } else {
        course(tests, n - 1).push(Event::Said(announced(tests[n - 1].label()))).push(
            Event::Ran(tests[n - 1].label()),
        ).push(Event::Said("[ok]\n"@))
    }
}

/// What happens in a run: it is opened, and then the tests have their turn.
pub open spec fn run_of(tests: Seq<&dyn Testable>) -> Seq<Event> {
    seq![Event::Said(opening(tests.len() as int))] + course(tests, tests.len() as int)
}

/// Writes the name of a test that is about to run.
fn announce<W: KernelWriter, T: Testable + ?Sized>(cell: &mut WriterCell<W>, test: &T)
    ensures
        wrote(old(cell), final(cell), announced(test.label())),
        handed_over(final(cell), announced(test.label())),
        took_no_less(old(cell), final(cell)),
        final(cell).events() == old(cell).events().push(Event::Said(announced(test.label()))),
{
    let mut line: String = String::from_str("  ");
    line.append(test.name());
    line.append("...");
    with_writer(cell, line.as_str());
}

/// Writes that a test passed, which it must have come back for.
fn acknowledge<W: KernelWriter, T: Testable + ?Sized>(cell: &mut WriterCell<W>, test: &T)
    requires
        test.ran(),
    ensures
        wrote(old(cell), final(cell), "[ok]\n"@),
        handed_over(final(cell), "[ok]\n"@),
        took_no_less(old(cell), final(cell)),
        final(cell).events() == old(cell).events().push(Event::Said("[ok]\n"@)),
{
    with_writer(cell, "[ok]\n");
}

/// Runs the tests in order, each once, writing the name of each before it runs and that it
/// passed once it came back.
pub fn runner<W: KernelWriter>(cell: &mut WriterCell<W>, tests: &[&dyn Testable])
    requires
        all_ready(tests@),
    ensures
        all_ran(tests@),
        final(cell).events() == old(cell).events() + run_of(tests@),
        wrote(
            old(cell),
            final(cell),
            opening(tests@.len() as int) + report(tests@, tests@.len() as int),
        ),
        all_handed_over(final(cell), run_of(tests@)),
{
    let n: usize = tests.len();
    let mut head: String = String::from_str("\nRunning ");
    let count: String = decimal(n as u64);
    head.append(count.as_str());
    head.append(" test(s)\n");
    with_writer(cell, head.as_str());
    let ghost opened = old(cell).events().push(Event::Said(opening(n as int)));
    proof {
        assert(opening(n as int) + report(tests@, 0) =~= opening(n as int));
        assert(opened + course(tests@, 0) =~= opened);
    }
    let mut i: usize = 0;
    while i < n
        invariant
            i <= n,
            n == tests@.len(),
            all_ready(tests@),
            forall|j: int| 0 <= j < i ==> (#[trigger] tests@[j]).ran(),
            cell.events() == opened + course(tests@, i as int),
            wrote(old(cell), cell, opening(n as int) + report(tests@, i as int)),
            handed_over(cell, opening(n as int)),
            all_handed_over(cell, course(tests@, i as int)),
        decreases n - i,
    {
        let ghost so_far = opening(n as int) + report(tests@, i as int);
        let ghost events = cell.events();
        let test = tests[i];
        announce(cell, test);
        test.run(&mut cell.log);
        acknowledge(cell, test);
        proof {
            let name = test.label();
            assert(so_far + announced(name) + "[ok]\n"@ =~= opening(n as int) + (report(
                tests@,
                i as int,
            ) + passed(name)));
            lemma_encoded_in_parts(so_far, announced(name));
            lemma_encoded_in_parts(so_far + announced(name), "[ok]\n"@);
            if let Some(b) = old(cell).target() {
                let said = encode_utf8(so_far);
                let line = encode_utf8(announced(name));
                let verdict = encode_utf8("[ok]\n"@);
                assert(b.output() + said + line + verdict =~= b.output() + (said + line + verdict));
            }
            assert(cell.events() =~= opened + course(tests@, i + 1));
        }
        i = i + 1;
    }
    assert(cell.events() =~= old(cell).events() + run_of(tests@));
}

/// The write that tells the emulator that all tests passed, which they must have run for.
fn all_passed(tests: &[&dyn Testable]) -> (exit: PortWrite)
    requires
        all_ran(tests@),
    ensures
        exit == exit_write(QemuExitCode::Success),
{
    exit_success()
}

/// Runs the tests in order, each once; gives what to send to the exit device once all of them
/// passed.
pub fn test_runner<W: KernelWriter>(
    cell: &mut WriterCell<W>,
    tests: &[&dyn Testable],
) -> (exit: PortWrite)
    requires
        all_ready(tests@),
    ensures
        all_ran(tests@),
        final(cell).events() == old(cell).events() + run_of(tests@),
        wrote(
            old(cell),
            final(cell),
            opening(tests@.len() as int) + report(tests@, tests@.len() as int),
        ),
        all_handed_over(final(cell), run_of(tests@)),
        exit == exit_write(QemuExitCode::Success),
{
    runner(cell, tests);
    all_passed(tests)
}

/// An output target that keeps what is written.
pub struct TextBuffer {
    bytes: Vec<u8>,
}

impl TextBuffer {
    /// An empty buffer.
    pub fn new() -> (b: Self)
        ensures
            b.output() == Seq::<u8>::empty(),
    {
        TextBuffer { bytes: Vec::new() }
    }

    /// The bytes so far.
    pub fn bytes(&self) -> (b: &[u8])
        ensures
            b@ == self.output(),
    {
        self.bytes.as_slice()
    }
}

impl KernelWriter for TextBuffer {
    closed spec fn output(&self) -> Seq<u8> {
        self.bytes@
    }

    /// The bytes stand in the buffer.
    open spec fn took(&self, bytes: Seq<u8>) -> bool {
        exists|i: int|
            0 <= i && i + bytes.len() <= self.output().len() && #[trigger] self.output().subrange(
                i,
                i + bytes.len(),
            ) == bytes
    }

    fn write_byte(&mut self, byte: u8) {
        let ghost before = self.output();
        self.bytes.push(byte);
        proof {
            assert(self.output() =~= before + seq![byte]);
            lemma_appended(before, self.output(), seq![byte]);
        }
    }

    fn write_str(&mut self, s: &str) {
        let ghost before = self.output();
        let mut more: Vec<u8> = s.as_bytes_vec();
        self.bytes.append(&mut more);
        proof {
            lemma_appended(before, self.output(), encode_utf8(s@));
        }
    }
}

/// What is appended stands at the end, and what stood before stays where it was.
proof fn lemma_appended(before: Seq<u8>, after: Seq<u8>, more: Seq<u8>)
    requires
        after == before + more,
    ensures
        after.subrange(before.len() as int, before.len() as int + more.len()) == more,
        forall|i: int, j: int|
            0 <= i <= j <= before.len() ==> #[trigger] before.subrange(i, j) == after.subrange(i, j),
{
    assert(after.subrange(before.len() as int, before.len() as int + more.len()) =~= more);
    assert forall|i: int, j: int| 0 <= i <= j <= before.len() implies #[trigger] before.subrange(
        i,
        j,
    ) == after.subrange(i, j) by {
        assert(before.subrange(i, j) =~= after.subrange(i, j));
    }
}

/// An output target that hands everything on as it comes: texts to one function and single
/// bytes to another.
pub struct Forward<F: Fn(&str), G: Fn(u8)> {
    text: F,
    byte: G,
    sent: Ghost<Seq<u8>>,
}

impl<F: Fn(&str), G: Fn(u8)> Forward<F, G> {
    #[verifier::type_invariant]
    spec fn takes_all(self) -> bool {
        &&& forall|s: &str| call_requires(self.text, (s,))
        &&& forall|b: u8| call_requires(self.byte, (b,))
    }

    /// The function for texts was called with `s` and came back.
    pub closed spec fn text_sent(&self, s: &str) -> bool {
        call_ensures(self.text, (s,), ())
    }

    /// The function for bytes was called with `b` and came back.
    pub closed spec fn byte_sent(&self, b: u8) -> bool {
        call_ensures(self.byte, (b,), ())
    }

    /// A target that hands texts on to `text` and bytes to `byte`.
    pub fn new(text: F, byte: G) -> (t: Self)
        requires
            forall|s: &str| call_requires(text, (s,)),
            forall|b: u8| call_requires(byte, (b,)),
        ensures
            t.output() == Seq::<u8>::empty(),
    {
        Forward { text, byte, sent: Ghost(Seq::empty()) }
    }

    /// Counts in a text that was sent.
    fn count_text(&mut self, s: &str)
        requires
            old(self).text_sent(s),
        ensures
            forall|t: &str|
                #![trigger old(self).text_sent(t)]
                #![trigger final(self).text_sent(t)]
                final(self).text_sent(t) == old(self).text_sent(t),
            forall|c: u8|
                #![trigger old(self).byte_sent(c)]
                #![trigger final(self).byte_sent(c)]
                final(self).byte_sent(c) == old(self).byte_sent(c),
            final(self).output() == old(self).output() + encode_utf8(s@),
    {
        proof {
            use_type_invariant(&*self);
        }
        self.sent = Ghost(self.sent@ + encode_utf8(s@));
    }

    /// Counts in a byte that was sent.
    fn count_byte(&mut self, b: u8)
        requires
            old(self).byte_sent(b),
        ensures
            forall|t: &str|
                #![trigger old(self).text_sent(t)]
                #![trigger final(self).text_sent(t)]
                final(self).text_sent(t) == old(self).text_sent(t),
            forall|c: u8|
                #![trigger old(self).byte_sent(c)]
                #![trigger final(self).byte_sent(c)]
                final(self).byte_sent(c) == old(self).byte_sent(c),
            final(self).output() == old(self).output().push(b),
    {
        proof {
            use_type_invariant(&*self);
        }
        self.sent = Ghost(self.sent@.push(b));
    }
}

impl<F: Fn(&str), G: Fn(u8)> KernelWriter for Forward<F, G> {
    closed spec fn output(&self) -> Seq<u8> {
        self.sent@
    }

    /// The bytes went to the function for texts, or the one byte to that for bytes.
    open spec fn took(&self, bytes: Seq<u8>) -> bool {
        ||| exists|s: &str| #[trigger] self.text_sent(s) && encode_utf8(s@) == bytes
        ||| exists|b: u8| #[trigger] self.byte_sent(b) && seq![b] == bytes
    }

    fn write_byte(&mut self, byte: u8) {
        proof {
            use_type_invariant(&*self);
        }
        (self.byte)(byte);
        self.count_byte(byte);
        assert(self.byte_sent(byte));
    }

    fn write_str(&mut self, s: &str) {
        proof {
            use_type_invariant(&*self);
        }
        (self.text)(s);
        self.count_text(s);
        assert(self.text_sent(s));
    }
}

/// The texts that were said in `events`, one after the other.
pub open spec fn said_in(events: Seq<Event>) -> Seq<char>
    decreases events.len(),
{
    if events.len() == 0 {
        Seq::empty()
    } else {
        match events.last() {
            Event::Said(text) => said_in(events.drop_last()) + text,
            Event::Ran(_) => said_in(events.drop_last()),
        }
    }
}

/// What happens for each test, whatever its place: it is announced by its name, run, and then
/// acknowledged, with nothing between.
pub proof fn law_course(tests: Seq<&dyn Testable>, n: int)
    requires
        0 <= n,
    ensures
        course(tests, n).len() == 3 * n,
        forall|i: int|
            0 <= i < n ==> {
                &&& course(tests, n)[3 * i] == Event::Said(
                    "  "@ + (#[trigger] tests[i]).label() + "..."@,
                )
                &&& course(tests, n)[3 * i + 1] == Event::Ran(tests[i].label())
                &&& course(tests, n)[3 * i + 2] == Event::Said("[ok]\n"@)
            },
        said_in(course(tests, n)) == report(tests, n),
    decreases n,
{
    if n > 0 {
        law_course(tests, n - 1);
        let before = course(tests, n - 1);
        let name = tests[n - 1].label();
        let one = before.push(Event::Said(announced(name)));
        let two = one.push(Event::Ran(name));
        let three = two.push(Event::Said("[ok]\n"@));
        assert(one.drop_last() =~= before);
        assert(two.drop_last() =~= one);
        assert(three.drop_last() =~= two);
        assert(said_in(one) == said_in(before) + announced(name));
        assert(said_in(two) == said_in(one));
        assert(said_in(three) == said_in(two) + "[ok]\n"@);
        assert(said_in(three) =~= report(tests, n - 1) + passed(name));
        assert forall|i: int| 0 <= i < n implies {
            &&& course(tests, n)[3 * i] == Event::Said(
                "  "@ + (#[trigger] tests[i]).label() + "..."@,
            )
            &&& course(tests, n)[3 * i + 1] == Event::Ran(tests[i].label())
            &&& course(tests, n)[3 * i + 2] == Event::Said("[ok]\n"@)
        } by {
            if i < n - 1 {
                assert(3 * i + 2 < before.len());
                assert(course(tests, n)[3 * i] == before[3 * i]);
                assert(course(tests, n)[3 * i + 1] == before[3 * i + 1]);
                assert(course(tests, n)[3 * i + 2] == before[3 * i + 2]);
            }
        }
    }
}

/// A run opens with the number of its tests, and its report is what is said after that.
pub proof fn law_run(tests: Seq<&dyn Testable>)
    ensures
        run_of(tests).len() == 1 + 3 * tests.len(),
        run_of(tests)[0] == Event::Said(
            "\nRunning "@ + decimal_text(tests.len() as int) + " test(s)\n"@,
        ),
        run_of(tests).skip(1) == course(tests, tests.len() as int),
        said_in(run_of(tests).skip(1)) == report(tests, tests.len() as int),
{
    law_course(tests, tests.len() as int);
    assert(run_of(tests).skip(1) =~= course(tests, tests.len() as int));
}

/// What was written to a target stands behind what it was given before, in UTF-8; a target
/// stays, and none comes out of nothing.
pub proof fn law_wrote<W: KernelWriter>(
    before: &WriterCell<W>,
    after: &WriterCell<W>,
    text: Seq<char>,
)
    requires
        wrote(before, after, text),
    ensures
        before.target() is Some <==> after.target() is Some,
        before.target() is Some ==> after.target()->0.output() == before.target()->0.output()
            + encode_utf8(text),
{
}

/// A text that was handed over was taken by the target, and so was each that was said in a run
/// whose texts were all handed over.
pub proof fn law_handed_over<W: KernelWriter>(
    cell: &WriterCell<W>,
    events: Seq<Event>,
    text: Seq<char>,
    i: int,
)
    requires
        cell.target() is Some,
    ensures
        handed_over(cell, text) ==> cell.target()->0.took(encode_utf8(text)),
        all_handed_over(cell, events) && 0 <= i < events.len() && events[i] == Event::Said(text)
            ==> cell.target()->0.took(encode_utf8(text)),
{
}

/// All tests are ready, or were run, exactly if each of them is, or was.
pub proof fn law_each(tests: Seq<&dyn Testable>)
    ensures
        all_ready(tests) <==> forall|i: int| 0 <= i < tests.len() ==> (#[trigger] tests[i]).ready(),
        all_ran(tests) <==> forall|i: int| 0 <= i < tests.len() ==> (#[trigger] tests[i]).ran(),
{
}

/// Whatever can be performed as a test is run under its own name, and was run once it was
/// performed.
pub proof fn law_test_case<T: TestCase>(test: T)
    ensures
        test.label() == test.title(),
        test.ready() <==> test.doable(),
        test.ran() <==> test.done(),
{
}

/// A function as a test is done once it was called and came back.
pub proof fn law_case<F: Fn()>(case: Case<F>)
    ensures
        case.title() == case.name@,
        case.doable() <==> call_requires(case.body, ()),
        case.done() <==> call_ensures(case.body, (), ()),
{
}

/// What a buffer took stands in it.
pub proof fn law_buffered(b: TextBuffer, bytes: Seq<u8>)
    requires
        b.took(bytes),
    ensures
        exists|i: int|
            0 <= i && i + bytes.len() <= b.output().len() && #[trigger] b.output().subrange(
                i,
                i + bytes.len(),
            ) == bytes,
{
}

/// What was handed on was handed to one of the two functions.
proof fn law_forwarded<F: Fn(&str), G: Fn(u8)>(w: Forward<F, G>, bytes: Seq<u8>)
    requires
        w.took(bytes),
    ensures
        (exists|s: &str|
            #[trigger] call_ensures(w.text, (s,), ()) && encode_utf8(s@) == bytes) || (exists|b: u8|
            #[trigger] call_ensures(w.byte, (b,), ()) && bytes.len() == 1 && bytes[0] == b),
{
    if exists|s: &str| #[trigger] w.text_sent(s) && encode_utf8(s@) == bytes {
        let s = choose|s: &str| #[trigger] w.text_sent(s) && encode_utf8(s@) == bytes;
        assert(call_ensures(w.text, (s,), ()));
    } else {
        let b = choose|b: u8| #[trigger] w.byte_sent(b) && seq![b] == bytes;
        assert(call_ensures(w.byte, (b,), ()));
    }
}

} // verus!
