//! The tree widget: what its trees hold and how its selection moves.
//!
//! The crate `tui_tree_widget` builds, draws and navigates the trees.  The
//! functions here are the calls into it, with what its code does stated over
//! names for what its values hold.

use crate::text::views;
use ratatui::style::{Color, Style};
use ratatui::text::{Line, Span};
use tui_tree_widget::{TreeItem, TreeState};
use vstd::prelude::*;

verus! {

/// A node of a tree with all that is below it; its fields stay hidden.
#[verifier::external_type_specification]
#[verifier::external_body]
#[verifier::reject_recursive_types(Identifier)]
pub struct ExTreeItem<'text, Identifier>(TreeItem<'text, Identifier>);

/// What is selected and open in a tree; its fields stay hidden.
#[verifier::external_type_specification]
#[verifier::external_body]
#[verifier::reject_recursive_types(Identifier)]
pub struct ExTreeState<Identifier>(TreeState<Identifier>);

/// The colors of the labels of a tree.
#[derive(Clone, Copy, Debug, PartialEq, Eq, Structural)]
pub enum Tint {
    Green,
    DarkGray,
}

/// One line of a tree written out from top to bottom: how deep the node lies,
/// what identifies it, and the lines of its text.
pub struct Row<A> {
    pub depth: nat,
    pub id: A,
    pub text: Seq<Seq<char>>,
    pub tint: Option<Tint>,
}

/// The rows of a tree one level deeper.
pub open spec fn deepen<A>(rows: Seq<Row<A>>) -> Seq<Row<A>> {
    rows.map_values(|r: Row<A>| Row { depth: r.depth + 1, ..r })
}

/// The row `j` is the one that the row `k` hangs from: the nearest one before it that
/// is one level higher.
pub open spec fn hangs_from<A>(rows: Seq<Row<A>>, k: int, j: int) -> bool {
    &&& 0 <= j < k < rows.len()
    &&& rows[j].depth + 1 == rows[k].depth
    &&& forall|m: int| j < m < k ==> (#[trigger] rows[m]).depth >= rows[k].depth
}

/// Trees on the left, and behind them one more node with its trees on the right.
pub open spec fn grown<A>(left: Seq<Row<A>>, row: Row<A>, right: Seq<Row<A>>) -> Seq<Row<A>> {
    left + (seq![row] + deepen(right))
}

/// Where the rows of [`grown`] come from.
pub proof fn lemma_grown<A>(left: Seq<Row<A>>, row: Row<A>, right: Seq<Row<A>>)
    ensures
        grown(left, row, right).len() == left.len() + 1 + right.len(),
        forall|k: int| 0 <= k < left.len() ==> #[trigger] grown(left, row, right)[k] == left[k],
        grown(left, row, right)[left.len() as int] == row,
        forall|k: int|
            left.len() < k < grown(left, row, right).len() ==> #[trigger] grown(left, row, right)[k]
                == (Row {
                depth: right[k - left.len() - 1].depth + 1,
                ..right[k - left.len() - 1]
            }),
{
}

/// What the rows of [`grown`] hang from.
pub proof fn lemma_grown_hangs<A>(
    left: Seq<Row<A>>,
    row: Row<A>,
    right: Seq<Row<A>>,
    k: int,
    j: int,
)
    requires
        row.depth == 0,
    ensures
        hangs_from(grown(left, row, right), k, j) <==> {
            ||| k < left.len() && hangs_from(left, k, j)
            ||| left.len() < k <= left.len() + right.len() && j == left.len() && right[k
                - left.len() - 1].depth == 0
            ||| j > left.len() && hangs_from(right, k - left.len() - 1, j - left.len() - 1)
        },
{
    let all = grown(left, row, right);
    let n = left.len() as int;
    lemma_grown(left, row, right);
    if k < n {
        if hangs_from(left, k, j) {
            assert forall|m: int| j < m < k implies (#[trigger] all[m]).depth >= all[k].depth by {
                assert(left[m].depth >= left[k].depth);
            }
        }
        if hangs_from(all, k, j) {
            assert forall|m: int| j < m < k implies (#[trigger] left[m]).depth >= left[k].depth by {
                assert(all[m].depth >= all[k].depth);
            }
        }
    } else if n < k < all.len() {
        if j < n {
            if hangs_from(all, k, j) {
                assert(all[n].depth >= all[k].depth);
            }
        } else if j > n {
            if hangs_from(right, k - n - 1, j - n - 1) {
                assert forall|m: int| j < m < k implies (#[trigger] all[m]).depth
                    >= all[k].depth by {
                    assert(right[m - n - 1].depth >= right[k - n - 1].depth);
                }
            }
            if hangs_from(all, k, j) {
                assert forall|m: int| j - n - 1 < m < k - n - 1 implies (
                #[trigger] right[m]).depth >= right[k - n - 1].depth by {
                    assert(all[m + n + 1].depth >= all[k].depth);
                }
            }
        }
    }
}

/// The state of a tree's selection.
#[verifier::ext_equal]
#[verifier::reject_recursive_types(A)]
pub struct Navigation<A> {
    pub selected: Seq<A>,
    pub opened: Set<Seq<A>>,
    pub drawn: Seq<Seq<A>>,
    pub last_index: nat,
}

impl<A> Navigation<A> {
    /// Where the selected node was drawn.
    pub open spec fn found(self) -> Option<int> {
        self.drawn.index_of_first(self.selected)
    }

    /// The selection moved to a drawn node; none where nothing was drawn.
    pub open spec fn moved(self, index: int) -> Navigation<A> {
        let i = if index < self.last_index {
            index
        } else {
            self.last_index as int
        };
        Navigation {
            selected: if i < self.drawn.len() {
                self.drawn[i]
            } else {
                Seq::empty()
            },
            ..self
        }
    }

    pub open spec fn down(self) -> Navigation<A> {
        match self.found() {
            Some(i) => self.moved(i + 1),
            None => self.moved(0),
        }
    }

    pub open spec fn up(self) -> Navigation<A> {
        match self.found() {
            Some(i) => self.moved(
                if i > 0 {
                    i - 1
                } else {
                    0
                },
            ),
            None => self.moved(self.last_index as int),
        }
    }

    pub open spec fn left(self) -> Navigation<A> {
        if self.opened.contains(self.selected) {
            Navigation { opened: self.opened.remove(self.selected), ..self }
        } else if self.selected.len() > 0 {
            Navigation { selected: self.selected.drop_last(), ..self }
        } else {
            self
        }
    }

    pub open spec fn right(self) -> Navigation<A> {
        if self.selected.len() > 0 {
            Navigation { opened: self.opened.insert(self.selected), ..self }
        } else {
            self
        }
    }

    pub open spec fn toggled(self) -> Navigation<A> {
        if self.selected.len() == 0 {
            self
        } else if self.opened.contains(self.selected) {
            Navigation { opened: self.opened.remove(self.selected), ..self }
        } else {
            Navigation { opened: self.opened.insert(self.selected), ..self }
        }
    }
}

/// Toggling a node twice leaves everything as it was.
pub proof fn law_toggling_twice_changes_nothing<A>(nav: Navigation<A>)
    ensures
        nav.toggled().toggled() == nav,
{
    assert(nav.toggled().toggled() =~= nav);
}

/// Moving the selection up and down opens and closes nothing.
pub proof fn law_moving_opens_nothing<A>(nav: Navigation<A>)
    ensures
        nav.down().opened == nav.opened,
        nav.up().opened == nav.opened,
{
}

// The widget's numbered trees.

/// The path of the selected node.
pub uninterp spec fn numbered_selected(state: TreeState<u64>) -> Seq<u64>;

/// The paths of the nodes that are open.
pub uninterp spec fn numbered_opened(state: TreeState<u64>) -> Set<Seq<u64>>;

/// The paths of the nodes that the last drawing showed, from top to bottom.
pub uninterp spec fn numbered_drawn(state: TreeState<u64>) -> Seq<Seq<u64>>;

/// The largest index that the last drawing allows a selection to have.
pub uninterp spec fn numbered_last_index(state: TreeState<u64>) -> nat;

/// All that is known of the state of a tree whose nodes are numbers.
pub open spec fn numbered_navigation(state: TreeState<u64>) -> Navigation<u64> {
    Navigation {
        selected: numbered_selected(state),
        opened: numbered_opened(state),
        drawn: numbered_drawn(state),
        last_index: numbered_last_index(state),
    }
}

/// `TreeState::default`: nothing is selected, open or drawn.
#[verifier::external_body]
pub(crate) fn numbered_fresh() -> (state: TreeState<u64>)
    ensures
        numbered_selected(state) == Seq::<u64>::empty(),
        numbered_opened(state) == Set::<Seq<u64>>::empty(),
        numbered_drawn(state) == Seq::<Seq<u64>>::empty(),
        numbered_last_index(state) == 0,
{
    TreeState::default()
}

/// `TreeState::selected`: the path of the selected node, empty without one.
#[verifier::external_body]
pub(crate) fn numbered_selection(state: &TreeState<u64>) -> (path: Vec<u64>)
    ensures
        path@ == numbered_selected(*state),
{
    state.selected().to_vec()
}

/// `TreeState::key_down`: selects the node drawn below the selected one, or the first.
#[verifier::external_body]
pub(crate) fn numbered_down(state: &mut TreeState<u64>)
    ensures
        numbered_navigation(*final(state)) == numbered_navigation(*old(state)).down(),
{
    state.key_down();
}

/// `TreeState::key_up`: selects the node drawn above the selected one, or the last.
#[verifier::external_body]
pub(crate) fn numbered_up(state: &mut TreeState<u64>)
    ensures
        numbered_navigation(*final(state)) == numbered_navigation(*old(state)).up(),
{
    state.key_up();
}

/// `TreeState::key_left`: closes the selected node, or selects its parent if it is closed.
#[verifier::external_body]
pub(crate) fn numbered_left(state: &mut TreeState<u64>)
    ensures
        numbered_navigation(*final(state)) == numbered_navigation(*old(state)).left(),
{
    state.key_left();
}

/// `TreeState::key_right`: opens the selected node.
#[verifier::external_body]
pub(crate) fn numbered_right(state: &mut TreeState<u64>)
    ensures
        numbered_navigation(*final(state)) == numbered_navigation(*old(state)).right(),
{
    state.key_right();
}

/// `TreeState::toggle_selected`: opens the selected node, or closes it if it is open.
#[verifier::external_body]
pub(crate) fn numbered_toggled(state: &mut TreeState<u64>)
    ensures
        numbered_navigation(*final(state)) == numbered_navigation(*old(state)).toggled(),
{
    state.toggle_selected();
}

/// The rows of a tree of numbered nodes.
pub uninterp spec fn numbered_rows(item: TreeItem<'static, u64>) -> Seq<Row<u64>>;

/// The rows of several trees one below the other.
pub open spec fn all_numbered_rows(items: Seq<TreeItem<'static, u64>>) -> Seq<Row<u64>> {
    items.map_values(|item: TreeItem<'static, u64>| numbered_rows(item)).flatten()
}

/// What identifies each tree of a list.
pub open spec fn numbered_ids(items: Seq<TreeItem<'static, u64>>) -> Seq<u64> {
    items.map_values(|item: TreeItem<'static, u64>| numbered_rows(item)[0].id)
}

/// One more tree at the end of a list.
pub proof fn lemma_numbered_push(items: Seq<TreeItem<'static, u64>>, item: TreeItem<'static, u64>)
    ensures
        all_numbered_rows(items.push(item)) == all_numbered_rows(items) + numbered_rows(item),
        numbered_ids(items.push(item)) == numbered_ids(items).push(numbered_rows(item)[0].id),
{
    broadcast use Seq::lemma_flatten_push;

    let rows = |t: TreeItem<'static, u64>| numbered_rows(t);
    assert(items.push(item).map_values(rows) =~= items.map_values(rows).push(numbered_rows(item)));
    assert(numbered_ids(items.push(item)) =~= numbered_ids(items).push(numbered_rows(item)[0].id));
}

/// `TreeItem::new` on a label in one color: it refuses children of which two
/// have the same number; otherwise the node stands above its children.
#[verifier::external_body]
pub(crate) fn numbered_item(
    id: u64,
    label: String,
    tint: Tint,
    children: Vec<TreeItem<'static, u64>>,
) -> (item: Option<TreeItem<'static, u64>>)
    ensures
        item is Some <==> numbered_ids(children@).no_duplicates(),
        item matches Some(it) ==> numbered_rows(it) == seq![
            Row { depth: 0, id, text: seq![label@], tint: Some(tint) },
        ] + deepen(all_numbered_rows(children@)),
{
    let color = match tint {
        Tint::Green => Color::Green,
        Tint::DarkGray => Color::DarkGray,
    };
    let line = Line::from(vec![Span::styled(label, Style::default().fg(color))]);
    TreeItem::new(id, line, children).ok()
}

// The widget's named trees.

/// The path of the selected node.
pub uninterp spec fn named_selected(state: TreeState<String>) -> Seq<Seq<char>>;

/// The paths of the nodes that are open.
pub uninterp spec fn named_opened(state: TreeState<String>) -> Set<Seq<Seq<char>>>;

/// The paths of the nodes that the last drawing showed, from top to bottom.
pub uninterp spec fn named_drawn(state: TreeState<String>) -> Seq<Seq<Seq<char>>>;

/// The largest index that the last drawing allows a selection to have.
pub uninterp spec fn named_last_index(state: TreeState<String>) -> nat;

/// All that is known of the state of a tree whose nodes are names.
pub open spec fn named_navigation(state: TreeState<String>) -> Navigation<Seq<char>> {
    Navigation {
        selected: named_selected(state),
        opened: named_opened(state),
        drawn: named_drawn(state),
        last_index: named_last_index(state),
    }
}

/// `TreeState::default`: nothing is selected, open or drawn.
#[verifier::external_body]
pub(crate) fn named_fresh() -> (state: TreeState<String>)
    ensures
        named_selected(state) == Seq::<Seq<char>>::empty(),
        named_opened(state) == Set::<Seq<Seq<char>>>::empty(),
        named_drawn(state) == Seq::<Seq<Seq<char>>>::empty(),
        named_last_index(state) == 0,
{
    TreeState::default()
}

/// `TreeState::selected`: the path of the selected node, empty without one.
#[verifier::external_body]
pub(crate) fn named_selection(state: &TreeState<String>) -> (path: Vec<String>)
    ensures
        views(path@) == named_selected(*state),
{
    state.selected().to_vec()
}

/// `TreeState::key_down`: selects the node drawn below the selected one, or the first.
#[verifier::external_body]
pub(crate) fn named_down(state: &mut TreeState<String>)
    ensures
        named_navigation(*final(state)) == named_navigation(*old(state)).down(),
{
    state.key_down();
}

/// `TreeState::key_up`: selects the node drawn above the selected one, or the last.
#[verifier::external_body]
pub(crate) fn named_up(state: &mut TreeState<String>)
    ensures
        named_navigation(*final(state)) == named_navigation(*old(state)).up(),
{
    state.key_up();
}

/// `TreeState::key_left`: closes the selected node, or selects its parent if it is closed.
#[verifier::external_body]
pub(crate) fn named_left(state: &mut TreeState<String>)
    ensures
        named_navigation(*final(state)) == named_navigation(*old(state)).left(),
{
    state.key_left();
}

/// `TreeState::key_right`: opens the selected node.
#[verifier::external_body]
pub(crate) fn named_right(state: &mut TreeState<String>)
    ensures
        named_navigation(*final(state)) == named_navigation(*old(state)).right(),
{
    state.key_right();
}

/// `TreeState::toggle_selected`: opens the selected node, or closes it if it is open.
#[verifier::external_body]
pub(crate) fn named_toggled(state: &mut TreeState<String>)
    ensures
        named_navigation(*final(state)) == named_navigation(*old(state)).toggled(),
{
    state.toggle_selected();
}

/// A text broken at its line feeds, each with the carriage return before it if
/// there is one; nothing comes after the last line feed if it ends the text.
pub open spec fn broken(text: Seq<char>) -> Seq<Seq<char>>
    decreases text.len(),
{
    if text.len() == 0 {
        Seq::empty()
    } else if text[0] == '\n' {
        seq![Seq::<char>::empty()] + broken(text.drop_first())
    } else if text.len() > 1 && text[0] == '\r' && text[1] == '\n' {
        seq![Seq::<char>::empty()] + broken(text.skip(2))
    } else {
        let rest = broken(text.drop_first());
        if rest.len() == 0 {
            seq![seq![text[0]]]
        } else {
            seq![seq![text[0]] + rest[0]] + rest.drop_first()
        }
    }
}

/// The lines that the widget shows of a text: at least one.
pub open spec fn text_lines(text: Seq<char>) -> Seq<Seq<char>> {
    if text.len() == 0 {
        seq![text]
    } else {
        broken(text)
    }
}

/// A text without line feeds is shown as it is.
pub proof fn law_one_line_stays_one_line(text: Seq<char>)
    requires
        !text.contains('\n'),
    ensures
        text_lines(text) == seq![text],
    decreases text.len(),
{
    if text.len() > 0 {
        assert(text[0] != '\n');
        if text.len() > 1 {
            assert(text[1] != '\n');
            assert forall|c: char| text.drop_first().contains(c) implies text.contains(c) by {
                let i = text.drop_first().index_of(c);
                assert(text[i + 1] == c);
            }
            law_one_line_stays_one_line(text.drop_first());
            assert(broken(text.drop_first()) == seq![text.drop_first()]);
            assert(seq![text[0]] + text.drop_first() =~= text);
            assert(broken(text) =~= seq![text]);
        } else {
            assert(broken(text.drop_first()) =~= Seq::empty());
            assert(seq![text[0]] =~= text);
        }
    }
}

/// The rows of a tree of named nodes.
pub uninterp spec fn named_rows(item: TreeItem<'static, String>) -> Seq<Row<Seq<char>>>;

/// The rows of several trees one below the other.
pub open spec fn all_named_rows(items: Seq<TreeItem<'static, String>>) -> Seq<Row<Seq<char>>> {
    items.map_values(|item: TreeItem<'static, String>| named_rows(item)).flatten()
}

/// What identifies each tree of a list.
pub open spec fn named_ids(items: Seq<TreeItem<'static, String>>) -> Seq<Seq<char>> {
    items.map_values(|item: TreeItem<'static, String>| named_rows(item)[0].id)
}

/// One more tree at the end of a list.
pub proof fn lemma_named_push(items: Seq<TreeItem<'static, String>>, item: TreeItem<'static, String>)
    ensures
        all_named_rows(items.push(item)) == all_named_rows(items) + named_rows(item),
        named_ids(items.push(item)) == named_ids(items).push(named_rows(item)[0].id),
{
    broadcast use Seq::lemma_flatten_push;

    let rows = |t: TreeItem<'static, String>| named_rows(t);
    assert(items.push(item).map_values(rows) =~= items.map_values(rows).push(named_rows(item)));
    assert(named_ids(items.push(item)) =~= named_ids(items).push(named_rows(item)[0].id));
}

/// `TreeItem::new_leaf` on plain text, which `Text::raw` breaks into lines.
#[verifier::external_body]
pub(crate) fn named_leaf(id: String, label: String) -> (item: TreeItem<'static, String>)
    ensures
        named_rows(item) == seq![
            Row { depth: 0, id: id@, text: text_lines(label@), tint: None },
        ],
{
    TreeItem::new_leaf(id, label)
}

/// `TreeItem::new` on plain text, which `Text::raw` breaks into lines: it
/// refuses children of which two have the same name; otherwise the node stands
/// above its children.
#[verifier::external_body]
pub(crate) fn named_item(
    id: String,
    label: String,
    children: Vec<TreeItem<'static, String>>,
) -> (item: Option<TreeItem<'static, String>>)
    ensures
        item is Some <==> named_ids(children@).no_duplicates(),
        item matches Some(it) ==> named_rows(it) == seq![
            Row { depth: 0, id: id@, text: text_lines(label@), tint: None },
        ] + deepen(all_named_rows(children@)),
{
    TreeItem::new(id, label, children).ok()
}

} // verus!
