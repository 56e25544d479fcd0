//! The interaction controller: a state machine over the three modes
//! Searching, Selecting and Setting. Events go in through [`Controller::handle`],
//! which updates the state and may order one registry mutation; the view
//! comes out of [`Controller::project`], a pure projection of the state that
//! emits no event and touches nothing.
use crate::gateway::opt_view;
use crate::search::ascii_lower;
use crate::search::search;
use crate::search::search_spec;
use crate::store::AssociationStore;
use crate::store::clone_strings;
use crate::store::has_key;
use crate::text::str_eq;
use vstd::prelude::*;

verus! {

/// The mode of interaction.
#[derive(Clone, Copy)]
pub enum Mode {
    Searching,
    Selecting,
    Setting,
}

/// One user event.
pub enum Event {
    SearchQueryChanged(String),
    ItemSelected(u32),
    DefaultRequested(String),
}

/// An order to the external registry: make `handler` the default for
/// `mime_type`. Carrying it out, fire-and-forget, is the adapter's concern.
pub struct SetCommand {
    pub mime_type: String,
    pub handler: String,
}

/// The sentinel index meaning "no selection": no candidate matched.
pub open spec fn invalid_index() -> u32 {
    u32::MAX
}

/// The controller's whole state.
pub struct Controller {
    pub search_text: String,
    pub results: Vec<String>,
    pub selected_index: u32,
    pub selected_mime: Option<String>,
    pub mode: Mode,
}

/// One row of the detail view: a handler and whether it is the current
/// default.
pub struct HandlerRow {
    pub handler: String,
    pub is_default: bool,
}

/// What the view shows in the current mode.
pub enum ViewContent {
    Searching { query_is_empty: bool, candidates: Vec<String> },
    Detail { mime_type: String, rows: Vec<HandlerRow> },
    NothingSelected,
}

/// An immutable snapshot for the presentation layer.
pub struct ViewSnapshot {
    pub no_match: bool,
    pub content: ViewContent,
}

/// The rows list `handlers` in order, each marked as the default exactly
/// when it equals the current default handler.
pub open spec fn rows_match(
    rows: Seq<HandlerRow>,
    handlers: Seq<Seq<char>>,
    default: Option<Seq<char>>,
) -> bool {
    &&& rows.len() == handlers.len()
    &&& (forall|i: int| 0 <= i < rows.len() ==> (#[trigger] rows[i]).handler@ == handlers[i])
    &&& (forall|i: int|
        0 <= i < rows.len() ==> (#[trigger] rows[i]).is_default == (default == Some(handlers[i])))
}

impl Controller {
    /// The initial state: searching with the empty query, every key a
    /// candidate, nothing selected.
    pub fn init(store: &AssociationStore) -> (c: Controller)
        ensures
            c.mode is Searching,
            c.search_text@ == Seq::<char>::empty(),
            c.results.deep_view() == store.spec_keys(),
            c.selected_index == 0,
            c.selected_mime is None,
    {
        proof {
            reveal_strlit("");
        }
        let results = search(store, "");
        Controller {
            search_text: String::new(),
            results,
            selected_index: 0,
            selected_mime: None,
            mode: Mode::Searching,
        }
    }

    /// Applies one event. A changed query recomputes the candidate list and
    /// returns to Searching; a selection fixes `selected_mime`, the sentinel
    /// index clearing it; a default request moves to Setting and orders the
    /// registry mutation for the selected mime, which is the one effect this
    /// machine ever asks for. The store is never changed.
    pub fn handle(&mut self, store: &AssociationStore, event: Event) -> (cmd: Option<SetCommand>)
        ensures
            match event {
                Event::SearchQueryChanged(text) => {
                    &&& final(self).mode is Searching
                    &&& final(self).search_text == text
                    &&& final(self).results.deep_view() == search_spec(
                        store.spec_keys(),
                        ascii_lower(text@),
                    )
                    &&& (text@.len() == 0 ==> final(self).results.deep_view()
                        == store.spec_keys())
                    &&& final(self).selected_index == old(self).selected_index
                    &&& final(self).selected_mime == old(self).selected_mime
                    &&& cmd is None
                },
                Event::ItemSelected(index) => {
                    &&& final(self).mode is Selecting
                    &&& final(self).selected_index == index
                    &&& (index == invalid_index() ==> final(self).selected_mime is None)
                    &&& (index != invalid_index() && (index as int) < old(self).results@.len()
                        ==> final(self).selected_mime == Some(old(self).results@[index as int]))
                    &&& (index != invalid_index() && (index as int) >= old(self).results@.len()
                        ==> final(self).selected_mime == old(self).selected_mime)
                    &&& final(self).results == old(self).results
                    &&& final(self).search_text == old(self).search_text
                    &&& cmd is None
                },
                Event::DefaultRequested(app) => {
                    &&& final(self).mode is Setting
                    &&& final(self).search_text == old(self).search_text
                    &&& final(self).results == old(self).results
                    &&& final(self).selected_index == old(self).selected_index
                    &&& final(self).selected_mime == old(self).selected_mime
                    &&& match old(self).selected_mime {
                        Some(m) => cmd == Some(SetCommand { mime_type: m, handler: app }),
                        None => cmd is None,
                    }
                },
            },
    {
        match event {
            Event::SearchQueryChanged(text) => {
                self.mode = Mode::Searching;
                let results = search(store, text.as_str());
                self.results = results;
                self.search_text = text;
                None
            },
            Event::ItemSelected(index) => {
                self.mode = Mode::Selecting;
                self.selected_index = index;
                if index == u32::MAX {
                    self.selected_mime = None;
                } else {
                    if (index as usize) < self.results.len() {
                        self.selected_mime = Some(self.results[index as usize].clone());
                    }
                }
                None
            },
            Event::DefaultRequested(app) => {
                self.mode = Mode::Setting;
                match &self.selected_mime {
                    Some(m) => Some(SetCommand { mime_type: m.clone(), handler: app }),
                    None => None,
                }
            },
        }
    }

    /// Projects the state into a view snapshot: a pure function with no side
    /// effect, which emits no event. In Searching mode the view lists the
    /// candidates; in the other modes it details the selected record, each
    /// handler marked against the live default `current_default`. A sentinel
    /// selection shows as "no match" in every mode.
    pub fn project(&self, store: &AssociationStore, current_default: &Option<String>) -> (v:
        ViewSnapshot)
        requires
            store.wf(),
        ensures
            v.no_match == (self.selected_index == invalid_index()),
            self.mode is Searching ==> match v.content {
                ViewContent::Searching { query_is_empty, candidates } => {
                    &&& query_is_empty == (self.search_text@.len() == 0)
                    &&& candidates@ == self.results@
                },
                _ => false,
            },
            !(self.mode is Searching) ==> match self.selected_mime {
                None => v.content is NothingSelected,
                Some(m) => {
                    if has_key(store.view_pairs(), m@) {
                        match v.content {
                            ViewContent::Detail { mime_type, rows } => {
                                &&& mime_type@ == m@
                                &&& rows_match(
                                    rows@,
                                    store.spec_handlers(m@),
                                    opt_view(*current_default),
                                )
                            },
                            _ => false,
                        }
                    } else {
                        v.content is NothingSelected
                    }
                },
            },
    {
        let no_match = self.selected_index == u32::MAX;
        match self.mode {
            Mode::Searching => {
                let candidates = clone_strings(&self.results);
                ViewSnapshot {
                    no_match,
                    content: ViewContent::Searching {
                        query_is_empty: self.search_text.as_str().is_empty(),
                        candidates,
                    },
                }
            },
            _ => {
                match &self.selected_mime {
                    None => ViewSnapshot { no_match, content: ViewContent::NothingSelected },
                    Some(m) => {
                        match store.handlers_for(m.as_str()) {
                            None => ViewSnapshot {
                                no_match,
                                content: ViewContent::NothingSelected,
                            },
                            Some(handlers) => {
                                let ghost hs = store.spec_handlers(m@);
                                let mut rows: Vec<HandlerRow> = Vec::new();
                                let mut i: usize = 0;
                                while i < handlers.len()
                                    invariant
                                        i <= handlers.len(),
                                        handlers.deep_view() == hs,
                                        handlers.deep_view().len() == handlers.len(),
                                        rows@.len() == i,
                                        forall|j: int|
                                            0 <= j < i ==> (#[trigger] rows@[j]).handler@ == hs[j],
                                        forall|j: int|
                                            0 <= j < i ==> (#[trigger] rows@[j]).is_default == (
                                            opt_view(*current_default) == Some(hs[j])),
                                    decreases handlers.len() - i,
                                {
                                    let h = handlers[i].clone();
                                    let is_default = match current_default {
                                        Some(d) => str_eq(d.as_str(), h.as_str()),
                                        None => false,
                                    };
                                    proof {
                                        assert(h@ == hs[i as int]);
                                    }
                                    rows.push(HandlerRow { handler: h, is_default });
                                    i = i + 1;
                                }
                                ViewSnapshot {
                                    no_match,
                                    content: ViewContent::Detail { mime_type: m.clone(), rows },
                                }
                            },
                        }
                    },
                }
            },
        }
    }
}

} // verus!
