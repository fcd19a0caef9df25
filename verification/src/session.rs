//! A session: the screen of the wrapped program, kept up to date with its
//! output.
use crate::boundary::{
    Terminal, cursor_hidden, empty_cell, fresh_screen, on_screen, shown_cell, shown_cursor,
    terminal_fed, terminal_fits, terminal_size,
};
use crate::cells::{
    apply_transforms_to_cells, blank_cell, collect_screen, collect_terminal_state,
    law_columns_are_cells, paired, placed_cursor, read_lines, rewritten_row, rewritten_screen,
    screen_cells, screen_lines, styled,
};
use crate::config::Runtime;
use crate::dispatch::takes_screenshot;
use crate::draw::{Frame, FrameView, draw_screen, flash_screen, flashed_rows, frame_of};
use crate::highlight::{
    HighlightEvaluation, HighlightTrigger, TriggerView, all_spans, color_rows, colors_of,
    evaluate_lines, trigger_views, triggers_of,
};
use crate::model::{CellView, Rgb, StyledCell, TerminalState, row_views};
use crate::passthrough::{
    LivePassthrough, joined, law_plain_output_passes_nothing, law_two_chunks_are_one, passed_on,
    waiting,
};
use crate::svg::{screen_fits, screen_to_svg, screenshot};
use crate::template::optional_text;
use crate::text::same_text;
use crate::trigger::{
    TriggerState, filter_new_triggers, filtered, keys_are_patterns,
    law_unchanged_screen_stays_quiet,
};
use vstd::prelude::*;
use vstd::string::StrSliceExecFns;

verus! {

broadcast use vstd::string::group_string_axioms;

/// What is on the screen.
#[derive(Debug)]
pub struct ScreenSnapshot {
    pub cells: Vec<Vec<StyledCell>>,
    pub state: TerminalState,
    pub highlights: HighlightEvaluation,
}

/// The cells that a terminal of this size shows after these pieces of output,
/// rewritten by the rules of the session.
pub open spec fn session_cells(size: (u16, u16), fed: Seq<Seq<u8>>, rt: Runtime) -> Seq<
    Seq<CellView>,
> {
    rewritten_screen(screen_cells(size, fed, size.0, size.1), rt.output_transforms@)
}

/// The highlight colours of such a terminal.
pub open spec fn session_colors(size: (u16, u16), fed: Seq<Seq<u8>>, rt: Runtime) -> Seq<
    Seq<Option<Rgb>>,
> {
    let lines = read_lines(session_cells(size, fed, rt));
    colors_of(lines, rt.highlight_rules@, all_spans(lines, rt.highlight_rules@))
}

/// The triggers of such a terminal.
pub open spec fn session_triggers(size: (u16, u16), fed: Seq<Seq<u8>>, rt: Runtime) -> Seq<
    TriggerView,
> {
    let lines = read_lines(session_cells(size, fed, rt));
    triggers_of(
        lines,
        rt.highlight_rules@,
        all_spans(lines, rt.highlight_rules@),
        rt.highlight_rules@.len() as int,
    )
}

/// The cursor of such a terminal.
pub open spec fn session_cursor(size: (u16, u16), fed: Seq<Seq<u8>>) -> TerminalState {
    placed_cursor(shown_cursor(size, fed), cursor_hidden(size, fed), size.0, size.1)
}

/// Takes down what is on the screen of a terminal.
pub fn snapshot_from_parser(terminal: &Terminal, rt: &Runtime) -> (r: ScreenSnapshot)
    ensures
        row_views(r.cells@) == session_cells(
            terminal_size(*terminal),
            terminal_fed(*terminal),
            *rt,
        ),
        r.state == session_cursor(terminal_size(*terminal), terminal_fed(*terminal)),
        color_rows(r.highlights.colors@) == session_colors(
            terminal_size(*terminal),
            terminal_fed(*terminal),
            *rt,
        ),
        trigger_views(r.highlights.triggers@) == session_triggers(
            terminal_size(*terminal),
            terminal_fed(*terminal),
            *rt,
        ),
{
    let (rows, cols) = terminal.dimensions();
    let mut cells = collect_screen(terminal, rows, cols);
    apply_transforms_to_cells(&mut cells, rt.output_transforms.as_slice());
    let state = collect_terminal_state(terminal, rows, cols);
    let lines = screen_lines(cells.as_slice());
    let highlights = evaluate_lines(lines.as_slice(), rt.highlight_rules.as_slice());
    ScreenSnapshot { cells, state, highlights }
}

/// Tells whether a screen of this size can take any output.
pub fn terminal_size_fits(rows: u16, cols: u16) -> (r: bool)
    ensures
        r == terminal_fits(rows, cols),
{
    2 <= rows && 3 <= cols && cols < 65528
}

/// Output that is read before the screen is shown for the first time.
pub struct StartupCapture {
    terminal: Terminal,
    captured: Vec<u8>,
}

impl StartupCapture {
    /// The size of the screen.
    pub closed spec fn size(self) -> (u16, u16) {
        terminal_size(self.terminal)
    }

    /// The pieces of output that were read.
    pub closed spec fn fed(self) -> Seq<Seq<u8>> {
        terminal_fed(self.terminal)
    }

    /// All output is kept, and the screen is empty before there is any.
    pub closed spec fn wf(self) -> bool {
        &&& self.captured@ == joined(self.fed())
        &&& self.fed().len() == 0 ==> fresh_screen(self.size(), self.fed())
    }

    /// Starts with an empty screen.
    pub fn new(rows: u16, cols: u16) -> (r: StartupCapture)
        requires
            1 <= rows,
        ensures
            r.wf(),
            r.size() == (rows, cols),
            r.fed() == Seq::<Seq<u8>>::empty(),
    {
        StartupCapture { terminal: Terminal::create(rows, cols), captured: Vec::new() }
    }

    /// Takes a piece of output.
    pub fn take(&mut self, bytes: &[u8])
        requires
            old(self).wf(),
            terminal_fits(old(self).size().0, old(self).size().1),
        ensures
            final(self).wf(),
            final(self).size() == old(self).size(),
            final(self).fed() == old(self).fed().push(bytes@),
    {
        self.terminal.feed(bytes);
        self.captured.extend_from_slice(bytes);
        assert(self.captured@ == old(self).captured@ + bytes@);
        assert(self.fed().drop_last() == old(self).fed());
    }

    /// Ends the capture and shows the screen. Where nothing was read, it shows blank
    /// cells.
    pub fn finish(self, rt: &Runtime) -> (r: Startup)
        requires
            self.wf(),
        ensures
            r.session.wf(),
            r.session.size() == self.size(),
            r.session.fed() == self.fed(),
            r.session.shows(*rt),
            r.passed@ == passed_on(joined(self.fed())),
            (r.session.seen(), trigger_views(r.news.triggers@)) == filtered(
                Map::empty(),
                session_triggers(self.size(), self.fed(), *rt),
            ),
            r.news.fit(r.session),
            self.fed().len() == 0 ==> r.passed@.len() == 0,
            self.fed().len() == 0 && rt.output_transforms@.len() == 0 ==> {
                &&& r.session.cells() == blank_rows(self.size())
                &&& r.session.cursor() == corner_cursor()
                &&& rt.highlight_rules@.len() == 0 ==> r.session.colors() == plain_rows(
                    self.size(),
                ) && r.news.triggers@.len() == 0
            },
    {
        let ghost fed = self.fed();
        let snapshot = snapshot_from_parser(&self.terminal, rt);
        let mut seen = TriggerState::default();
        let triggers = filter_new_triggers(&mut seen, snapshot.highlights.triggers);
        let mut passthrough = LivePassthrough::default();
        assert(Seq::<u8>::empty() + self.captured@ == self.captured@);
        let passed = passthrough.feed(self.captured.as_slice());
        let session = Session {
            terminal: self.terminal,
            passthrough,
            seen,
            cells: snapshot.cells,
            colors: snapshot.highlights.colors,
            state: snapshot.state,
        };
        proof {
            lemma_cells_shape(session.size(), fed, *rt);
            if fed.len() == 0 {
                law_plain_output_passes_nothing(joined(fed));
                if rt.output_transforms@.len() == 0 {
                    law_fresh_screen_is_blank(session.size(), fed, *rt);
                    assert(trigger_views(triggers@).len() == triggers@.len());
                }
            }
        }
        let news = session.news(triggers);
        Startup { session, passed, news }
    }
}

/// A session that is about to be shown.
pub struct Startup {
    pub session: Session,
    /// What the real terminal has to be told before the screen is drawn.
    pub passed: Vec<u8>,
    pub news: News,
}

/// Matches that were not there before.
pub struct News {
    pub triggers: Vec<HighlightTrigger>,
    /// A screenshot, where there are such matches.
    pub svg: Option<String>,
    /// Whether a screenshot is taken for one of them.
    pub flash: bool,
}

impl News {
    /// Whether the screenshot is there when it is needed, and shows the screen of
    /// the session; and whether the flash tells of a screenshot.
    pub open spec fn fit(self, session: Session) -> bool {
        &&& optional_text(self.svg) == if self.triggers@.len() > 0 {
            Some(screenshot(session.cells(), session.colors()))
        } else {
            None
        }
        &&& self.flash == exists|i: int|
            0 <= i < self.triggers@.len() && (#[trigger] self.triggers@[i]).capture_tui_screenshot
    }
}

/// What came of a piece of output.
pub struct ChunkOutcome {
    /// What the real terminal has to be told.
    pub passed: Vec<u8>,
    pub news: News,
}

/// The screen of the wrapped program.
pub struct Session {
    terminal: Terminal,
    passthrough: LivePassthrough,
    seen: TriggerState,
    cells: Vec<Vec<StyledCell>>,
    colors: Vec<Vec<Option<Rgb>>>,
    state: TerminalState,
}

impl Session {
    /// The size of the screen.
    pub closed spec fn size(self) -> (u16, u16) {
        terminal_size(self.terminal)
    }

    /// The pieces of output that were read.
    pub closed spec fn fed(self) -> Seq<Seq<u8>> {
        terminal_fed(self.terminal)
    }

    /// The fingerprint that was last reported for each key.
    pub closed spec fn seen(self) -> Map<Seq<char>, u64> {
        self.seen@
    }

    /// The cells that are shown.
    pub closed spec fn cells(self) -> Seq<Seq<CellView>> {
        row_views(self.cells@)
    }

    /// The highlight colours that are shown.
    pub closed spec fn colors(self) -> Seq<Seq<Option<Rgb>>> {
        color_rows(self.colors@)
    }

    /// Where the cursor is shown.
    pub closed spec fn cursor(self) -> TerminalState {
        self.state
    }

    /// The screen has a cell for every position, and the control sequences that wait
    /// are those at the end of all output.
    pub closed spec fn wf(self) -> bool {
        &&& has_shape(self.cells(), self.size())
        &&& self.passthrough@ == waiting(joined(self.fed()))
    }

    /// Whether what is shown is what all output together amounts to.
    pub open spec fn shows(self, rt: Runtime) -> bool {
        &&& self.cells() == session_cells(self.size(), self.fed(), rt)
        &&& self.colors() == session_colors(self.size(), self.fed(), rt)
        &&& self.cursor() == session_cursor(self.size(), self.fed())
    }

    /// A screenshot of what is shown.
    pub fn screenshot(&self) -> (r: String)
        requires
            self.wf(),
        ensures
            r@ == screenshot(self.cells(), self.colors()),
    {
        proof {
            lemma_shape_fits(self.cells(), self.size());
        }
        screen_to_svg(self.cells.as_slice(), Some(self.colors.as_slice()))
    }

    /// How to draw what is shown.
    pub fn frame(&self) -> (r: Frame)
        ensures
            r@ == frame_of(self.cells(), self.colors(), self.cursor()),
    {
        draw_screen(self.cells.as_slice(), self.colors.as_slice(), &self.state)
    }

    /// How to draw what is shown in the colours of a flash.
    pub fn flash(&self) -> (r: String)
        ensures
            r@ == flashed_rows(self.cells(), self.cells().len() as int),
    {
        flash_screen(self.cells.as_slice())
    }

    fn news(&self, triggers: Vec<HighlightTrigger>) -> (r: News)
        requires
            self.wf(),
        ensures
            r.triggers == triggers,
            r.fit(*self),
    {
        let svg = if triggers.len() > 0 {
            Some(self.screenshot())
        } else {
            None
        };
        let flash = takes_screenshot(triggers.as_slice());
        News { triggers, svg, flash }
    }

    /// Takes a piece of output and brings the screen up to date.
    pub fn take(&mut self, bytes: &[u8], rt: &Runtime) -> (r: ChunkOutcome)
        requires
            old(self).wf(),
            terminal_fits(old(self).size().0, old(self).size().1),
        ensures
            final(self).wf(),
            final(self).size() == old(self).size(),
            final(self).fed() == old(self).fed().push(bytes@),
            final(self).shows(*rt),
            r.passed@ == passed_on(waiting(joined(old(self).fed())) + bytes@),
            passed_on(joined(final(self).fed())) == passed_on(joined(old(self).fed())) + r.passed@,
            (final(self).seen(), trigger_views(r.news.triggers@)) == filtered(
                old(self).seen(),
                session_triggers(final(self).size(), final(self).fed(), *rt),
            ),
            r.news.fit(*final(self)),
    {
        let ghost before = self.fed();
        let passed = self.passthrough.feed(bytes);
        self.terminal.feed(bytes);
        let snapshot = snapshot_from_parser(&self.terminal, rt);
        let triggers = filter_new_triggers(&mut self.seen, snapshot.highlights.triggers);
        self.cells = snapshot.cells;
        self.colors = snapshot.highlights.colors;
        self.state = snapshot.state;
        proof {
            law_two_chunks_are_one(joined(before), bytes@);
            assert(self.fed().drop_last() == before);
            lemma_cells_shape(self.size(), self.fed(), *rt);
        }
        let news = self.news(triggers);
        ChunkOutcome { passed, news }
    }
}

/// What can happen in a session.
#[derive(Debug)]
pub enum SessionEvent {
    /// The key for screenshots was pressed.
    ScreenshotKey,
    /// The program wrote something.
    Output(Vec<u8>),
    /// Nothing happened for a while.
    Idle,
    /// The program will write nothing more.
    Ended,
}

/// What is to be done about an event.
#[derive(Debug)]
pub enum SessionAction {
    /// Tell the real terminal something.
    Pass(Vec<u8>),
    /// Write a screenshot that was asked for.
    Save(String),
    /// Report new matches, with a screenshot.
    Report(Vec<HighlightTrigger>, String),
    /// Draw the screen in the colours of a flash for a moment, and then again as
    /// it is.
    Flash(String, Frame),
    /// Draw the screen.
    Draw(Frame),
    /// End the session.
    Stop,
}

/// An action, over plain values.
#[verifier::ext_equal]
pub enum StepView {
    Pass(Seq<u8>),
    Save(Seq<char>),
    Report(Seq<TriggerView>, Seq<char>),
    Flash(Seq<char>, FrameView),
    Draw(FrameView),
    Stop,
}

impl View for SessionAction {
    type V = StepView;

    open spec fn view(&self) -> StepView {
        match self {
            SessionAction::Pass(bytes) => StepView::Pass(bytes@),
            SessionAction::Save(svg) => StepView::Save(svg@),
            SessionAction::Report(triggers, svg) => StepView::Report(
                trigger_views(triggers@),
                svg@,
            ),
            SessionAction::Flash(text, frame) => StepView::Flash(text@, frame@),
            SessionAction::Draw(frame) => StepView::Draw(frame@),
            SessionAction::Stop => StepView::Stop,
        }
    }
}

/// The views of a list of actions.
pub open spec fn step_views(actions: Seq<SessionAction>) -> Seq<StepView> {
    actions.map_values(|a: SessionAction| a@)
}

/// Whether a screenshot is taken for one of the triggers.
pub open spec fn any_capture(triggers: Seq<TriggerView>) -> bool {
    exists|i: int| 0 <= i < triggers.len() && (#[trigger] triggers[i]).capture
}

impl Session {
    /// The frame that shows the session.
    pub open spec fn frame_view(self) -> FrameView {
        frame_of(self.cells(), self.colors(), self.cursor())
    }

    /// The flash of the session.
    pub open spec fn flash_view(self) -> StepView {
        StepView::Flash(flashed_rows(self.cells(), self.cells().len() as int), self.frame_view())
    }

    /// What is done about output that brought the session here, passed on these
    /// bytes and led to these new triggers: the real terminal is told first; new
    /// triggers are reported, with a flash where a screenshot is taken; the screen
    /// is drawn last.
    pub open spec fn output_steps(self, passed: Seq<u8>, triggers: Seq<TriggerView>) -> Seq<
        StepView,
    > {
        let reported = if triggers.len() == 0 {
            Seq::empty()
        } else {
            seq![StepView::Report(triggers, screenshot(self.cells(), self.colors()))]
        };
        let flashed = if any_capture(triggers) {
            seq![self.flash_view()]
        } else {
            Seq::empty()
        };
        seq![StepView::Pass(passed)] + reported + flashed + seq![StepView::Draw(self.frame_view())]
    }

    fn flash_action(&self) -> (r: SessionAction)
        ensures
            r@ == self.flash_view(),
    {
        SessionAction::Flash(self.flash(), self.frame())
    }

    /// Decides what is to be done about an event.
    pub fn handle(&mut self, event: SessionEvent, rt: &Runtime) -> (r: Vec<SessionAction>)
        requires
            old(self).wf(),
            event is Output ==> terminal_fits(old(self).size().0, old(self).size().1),
        ensures
            final(self).wf(),
            match event {
                SessionEvent::ScreenshotKey => *final(self) == *old(self) && step_views(r@) == seq![
                    StepView::Save(screenshot(old(self).cells(), old(self).colors())),
                    old(self).flash_view(),
                ],
                SessionEvent::Output(bytes) => {
                    let (seen, triggers) = filtered(
                        old(self).seen(),
                        session_triggers(final(self).size(), final(self).fed(), *rt),
                    );
                    &&& final(self).size() == old(self).size()
                    &&& final(self).fed() == old(self).fed().push(bytes@)
                    &&& final(self).shows(*rt)
                    &&& final(self).seen() == seen
                    &&& step_views(r@) == final(self).output_steps(
                        passed_on(waiting(joined(old(self).fed())) + bytes@),
                        triggers,
                    )
                },
                SessionEvent::Idle => *final(self) == *old(self) && r@.len() == 0,
                SessionEvent::Ended => *final(self) == *old(self) && step_views(r@) == seq![
                    StepView::Stop,
                ],
            },
    {
        let mut actions: Vec<SessionAction> = Vec::new();
        match event {
            SessionEvent::ScreenshotKey => {
                push_action(&mut actions, SessionAction::Save(self.screenshot()));
                push_action(&mut actions, self.flash_action());
            },
            SessionEvent::Output(bytes) => {
                let outcome = self.take(bytes.as_slice(), rt);
                actions = self.output_actions(outcome);
            },
            SessionEvent::Idle => {},
            SessionEvent::Ended => {
                push_action(&mut actions, SessionAction::Stop);
            },
        }
        actions
    }

    fn output_actions(&self, outcome: ChunkOutcome) -> (r: Vec<SessionAction>)
        requires
            outcome.news.fit(*self),
        ensures
            step_views(r@) == self.output_steps(
                outcome.passed@,
                trigger_views(outcome.news.triggers@),
            ),
    {
        let ghost passed = outcome.passed@;
        let ghost triggers = trigger_views(outcome.news.triggers@);
        let mut actions: Vec<SessionAction> = Vec::new();
        push_action(&mut actions, SessionAction::Pass(outcome.passed));
        proof {
            lemma_any_capture(outcome.news.triggers@);
        }
        let flash = outcome.news.flash;
        if let Some(svg) = outcome.news.svg {
            push_action(&mut actions, SessionAction::Report(outcome.news.triggers, svg));
        }
        if flash {
            push_action(&mut actions, self.flash_action());
        }
        push_action(&mut actions, SessionAction::Draw(self.frame()));
        assert(step_views(actions@) == self.output_steps(passed, triggers));
        actions
    }
}

fn push_action(actions: &mut Vec<SessionAction>, action: SessionAction)
    ensures
        step_views(final(actions)@) == step_views(old(actions)@).push(action@),
{
    actions.push(action);
    assert(step_views(actions@) == step_views(old(actions)@).push(action@));
}

proof fn lemma_any_capture(triggers: Seq<HighlightTrigger>)
    ensures
        any_capture(trigger_views(triggers)) == exists|i: int|
            0 <= i < triggers.len() && (#[trigger] triggers[i]).capture_tui_screenshot,
{
    let views = trigger_views(triggers);
    if any_capture(views) {
        let i = choose|i: int| 0 <= i < views.len() && (#[trigger] views[i]).capture;
        assert(triggers[i].capture_tui_screenshot);
    }
    if exists|i: int| 0 <= i < triggers.len() && (#[trigger] triggers[i]).capture_tui_screenshot {
        let i = choose|i: int|
            0 <= i < triggers.len() && (#[trigger] triggers[i]).capture_tui_screenshot;
        assert(views[i].capture);
    }
}

/// Output that leaves every text on the screen as it was reports nothing.
pub proof fn law_same_texts_report_nothing(
    seen: Map<Seq<char>, u64>,
    size: (u16, u16),
    before: Seq<Seq<u8>>,
    after: Seq<Seq<u8>>,
    rt: Runtime,
)
    requires
        keys_are_patterns(rt.highlight_rules@),
        read_lines(session_cells(size, before, rt)) == read_lines(session_cells(size, after, rt)),
    ensures
        ({
            let known = filtered(seen, session_triggers(size, before, rt)).0;
            filtered(known, session_triggers(size, after, rt)) == (
                known,
                Seq::<TriggerView>::empty(),
            )
        }),
{
    law_unchanged_screen_stays_quiet(
        seen,
        read_lines(session_cells(size, before, rt)),
        rt.highlight_rules@,
    );
}

/// A screen of blank cells.
pub open spec fn blank_rows(size: (u16, u16)) -> Seq<Seq<CellView>> {
    Seq::new(size.0 as nat, |row: int| Seq::new(size.1 as nat, |col: int| blank_cell()))
}

/// A screen without highlights.
pub open spec fn plain_rows(size: (u16, u16)) -> Seq<Seq<Option<Rgb>>> {
    Seq::new(size.0 as nat, |row: int| Seq::new(size.1 as nat, |col: int| None::<Rgb>))
}

/// A cursor that is shown in the upper left corner.
pub open spec fn corner_cursor() -> TerminalState {
    TerminalState { cursor_row: 0, cursor_col: 0, cursor_visible: true }
}

/// An empty terminal shows blank cells and the cursor in the corner. Without rules
/// nothing is highlighted and nothing is reported.
pub proof fn law_fresh_screen_is_blank(size: (u16, u16), fed: Seq<Seq<u8>>, rt: Runtime)
    requires
        fresh_screen(size, fed),
        rt.output_transforms@.len() == 0,
    ensures
        session_cells(size, fed, rt) == blank_rows(size),
        session_cursor(size, fed) == corner_cursor(),
        rt.highlight_rules@.len() == 0 ==> session_colors(size, fed, rt) == plain_rows(size)
            && session_triggers(size, fed, rt) == Seq::<TriggerView>::empty(),
{
    let cells = session_cells(size, fed, rt);
    let blank = blank_rows(size);
    assert forall|row: int| 0 <= row < size.0 implies #[trigger] cells[row] == blank[row] by {
        assert forall|col: int| 0 <= col < size.1 implies #[trigger] cells[row][col]
            == blank[row][col] by {
            assert(on_screen(size, row as u16, col as u16));
            assert(shown_cell(size, fed, row as u16, col as u16) == Some(empty_cell()));
            assert(cells[row][col] == styled(Some(empty_cell())));
        }
        assert(cells[row] == blank[row]);
    }
    assert(cells == blank);
    if rt.highlight_rules@.len() == 0 {
        let lines = read_lines(cells);
        let colors = session_colors(size, fed, rt);
        assert forall|row: int| 0 <= row < size.0 implies #[trigger] colors[row] == plain_rows(
            size,
        )[row] by {
            assert(paired(blank[row]));
            law_columns_are_cells(blank[row]);
            assert(lines[row].cell_count == size.1);
            assert(colors[row] == plain_rows(size)[row]);
        }
        assert(colors == plain_rows(size));
    }
}

/// Whether there is a cell for every position on a screen of this size.
pub open spec fn has_shape(cells: Seq<Seq<CellView>>, size: (u16, u16)) -> bool {
    &&& cells.len() == size.0
    &&& forall|i: int| 0 <= i < cells.len() ==> (#[trigger] cells[i]).len() == size.1
}

proof fn lemma_cells_shape(size: (u16, u16), fed: Seq<Seq<u8>>, rt: Runtime)
    ensures
        has_shape(session_cells(size, fed, rt), size),
{
    let plain = screen_cells(size, fed, size.0, size.1);
    let cells = session_cells(size, fed, rt);
    assert forall|i: int| 0 <= i < cells.len() implies (#[trigger] cells[i]).len() == size.1 by {
        assert(plain[i].len() == size.1);
        if rt.output_transforms@.len() > 0 {
            assert(cells[i] == rewritten_row(plain[i], rt.output_transforms@));
        }
    }
}

proof fn lemma_shape_fits(cells: Seq<Seq<CellView>>, size: (u16, u16))
    requires
        has_shape(cells, size),
    ensures
        screen_fits(cells),
{
}

/// An error of a read, as far as it makes a difference.
#[derive(Debug, Clone, Copy, PartialEq, Eq, Structural)]
pub enum ReadErrorKind {
    Interrupted,
    WouldBlock,
    TimedOut,
    Other,
}

/// What to do after a read.
#[derive(Debug, Clone, Copy, PartialEq, Eq, Structural)]
pub enum ReadStep {
    /// Take so many bytes.
    Take(usize),
    /// Read again at once.
    Retry,
    /// Read again after a pause.
    Pause,
    /// There is nothing more to read.
    Stop,
}

/// Tells whether an error goes away by itself.
pub fn is_transient_read_error(error: ReadErrorKind) -> (r: bool)
    ensures
        r == (error is WouldBlock || error is TimedOut),
{
    match error {
        ReadErrorKind::WouldBlock => true,
        ReadErrorKind::TimedOut => true,
        _ => false,
    }
}

/// Decides what to do after a read: reading nothing is the end, and so is an error
/// that does not go away.
pub fn read_step(result: Result<usize, ReadErrorKind>) -> (r: ReadStep)
    ensures
        match result {
            Ok(n) => r == if n == 0 {
                ReadStep::Stop
            } else {
                ReadStep::Take(n)
            },
            Err(error) => {
                &&& r is Retry <==> error is Interrupted
                &&& r is Pause <==> error is WouldBlock || error is TimedOut
                &&& r is Stop <==> error is Other
            },
        },
{
    match result {
        Ok(n) => if n == 0 {
            ReadStep::Stop
        } else {
            ReadStep::Take(n)
        },
        Err(error) => match error {
            ReadErrorKind::Interrupted => ReadStep::Retry,
            _ => if is_transient_read_error(error) {
                ReadStep::Pause
            } else {
                ReadStep::Stop
            },
        },
    }
}

/// The kind of terminal that the wrapped program is told it runs in: that of the
/// real one, unless it is not set or cannot do anything.
pub fn preferred_term(term: Option<String>) -> (r: String)
    ensures
        r@ == match term {
            Some(name) => if name@.len() > 0 && name@ != "dumb"@ {
                name@
            } else {
                "xterm-256color"@
            },
            None => "xterm-256color"@,
        },
{
    match term {
        Some(name) => if name.as_str().unicode_len() > 0 && !same_text(name.as_str(), "dumb") {
            name
        } else {
            "xterm-256color".to_string()
        },
        None => "xterm-256color".to_string(),
    }
}

/// Output is answered by telling the real terminal first and drawing the screen last.
/// In between there is a report exactly where triggers are new, and a flash behind it
/// exactly where a screenshot is taken for one of them.
pub proof fn law_output_is_answered_in_order(
    session: Session,
    passed: Seq<u8>,
    triggers: Seq<TriggerView>,
)
    ensures
        ({
            let steps = session.output_steps(passed, triggers);
            let n = steps.len() as int;
            let report = StepView::Report(
                triggers,
                screenshot(session.cells(), session.colors()),
            );
            let frame = frame_of(session.cells(), session.colors(), session.cursor());
            let flash = StepView::Flash(
                flashed_rows(session.cells(), session.cells().len() as int),
                frame,
            );
            let taken = exists|i: int| 0 <= i < triggers.len() && (#[trigger] triggers[i]).capture;
            &&& steps[0] == StepView::Pass(passed)
            &&& steps[n - 1] == StepView::Draw(frame)
            &&& n == 2 + (if triggers.len() > 0 { 1int } else { 0 }) + (if taken { 1int } else {
                0
            })
            &&& triggers.len() > 0 ==> steps[1] == report
            &&& taken ==> steps[n - 2] == flash
        }),
{
}

/// What is highlighted and reported is what is shown: where two terminals show the same
/// cells after the rules, they show the same colours and have the same triggers.
pub proof fn law_highlights_are_of_what_is_shown(
    size: (u16, u16),
    a: Seq<Seq<u8>>,
    b: Seq<Seq<u8>>,
    rt: Runtime,
)
    requires
        session_cells(size, a, rt) == session_cells(size, b, rt),
    ensures
        session_colors(size, a, rt) == session_colors(size, b, rt),
        session_triggers(size, a, rt) == session_triggers(size, b, rt),
{
}

/// What is shown is the screen of the terminal: as it is without transforms, and row by
/// row rewritten with them, with the cursor where the terminal has it.
pub proof fn law_session_shows_the_terminal(
    size: (u16, u16),
    fed: Seq<Seq<u8>>,
    rt: Runtime,
    row: u16,
)
    requires
        row < size.0,
    ensures
        ({
            let plain = screen_cells(size, fed, size.0, size.1)[row as int];
            let shown = session_cells(size, fed, rt)[row as int];
            let rules = rt.output_transforms@;
            &&& rules.len() == 0 ==> shown == plain
            &&& rules.len() > 0 ==> shown == rewritten_row(plain, rules)
        }),
        shown_cursor(size, fed).0 < size.0 && shown_cursor(size, fed).1 < size.1
            ==> session_cursor(size, fed) == (TerminalState {
            cursor_row: shown_cursor(size, fed).0,
            cursor_col: shown_cursor(size, fed).1,
            cursor_visible: !cursor_hidden(size, fed),
        }),
{
}

/// Colours and triggers come from the lines that are shown and from the highlight rules
/// alone.
pub proof fn law_highlights_come_from_lines(size: (u16, u16), fed: Seq<Seq<u8>>, rt: Runtime)
    ensures
        ({
            let lines = read_lines(session_cells(size, fed, rt));
            let rules = rt.highlight_rules@;
            let found = all_spans(lines, rules);
            &&& session_colors(size, fed, rt) == colors_of(lines, rules, found)
            &&& session_triggers(size, fed, rt) == triggers_of(
                lines,
                rules,
                found,
                rules.len() as int,
            )
        }),
{
}

/// The views of actions hold what each action asks for.
pub proof fn law_step_views_are_whole(actions: Seq<SessionAction>, i: int)
    requires
        0 <= i < actions.len(),
    ensures
        step_views(actions).len() == actions.len(),
        step_views(actions)[i] == match actions[i] {
            SessionAction::Pass(bytes) => StepView::Pass(bytes@),
            SessionAction::Save(svg) => StepView::Save(svg@),
            SessionAction::Report(triggers, svg) => StepView::Report(
                trigger_views(triggers@),
                svg@,
            ),
            SessionAction::Flash(text, frame) => StepView::Flash(text@, frame@),
            SessionAction::Draw(frame) => StepView::Draw(frame@),
            SessionAction::Stop => StepView::Stop,
        },
{
}

} // verus!
