//! The filter for a stream of document events, such as the events that a
//! `pulldown-cmark` parser gives out.
//!
//! Only text events are looked at: each is replaced by the events of its
//! segments, a text event for a plain run and an HTML event for an
//! annotation. Every other event passes through as it is. The filter is a
//! queue: events are fed in, and come out in the order of the document.

use std::collections::VecDeque;
use vstd::prelude::*;
use vstd::string::*;
use vstd::utf8::*;
use crate::latex_like::{segments, LatexLikeFilter, Segment};
use crate::renderer::{ruby_markup, HtmlRenderer};
use crate::Filtered;

verus! {

/// An event of a document: a run of text, a piece of HTML, or anything else,
/// which the filter carries along.
#[derive(Debug, Clone, PartialEq)]
pub enum Event<T> {
    Text(String),
    Html(String),
    Other(T),
}

/// What an event says: the bytes of its text or HTML, or the other event.
pub ghost enum EventView<T> {
    Text(Seq<u8>),
    Html(Seq<u8>),
    Other(T),
}

impl<T> View for Event<T> {
    type V = EventView<T>;

    open spec fn view(&self) -> EventView<T> {
        match self {
            Event::Text(text) => EventView::Text(encode_utf8(text@)),
            Event::Html(html) => EventView::Html(encode_utf8(html@)),
            Event::Other(other) => EventView::Other(*other),
        }
    }
}

/// The event for one segment of a text: a text event for a plain run, an HTML
/// event with the `<ruby>` element for an annotation, and a text event with
/// the command as it stands for a `ruby` command that is no annotation.
pub open spec fn segment_event<T>(open: Seq<u8>, close: Seq<u8>, segment: Segment) -> EventView<T> {
    match segment {
        Segment::Plain(text) => EventView::Text(text),
        Segment::Annotation { source, outcome } => match outcome {
            Ok(ruby) => EventView::Html(ruby_markup(open, close, ruby)),
            Err(mismatch) => EventView::Text(source),
        },
    }
}

/// The events for the segments `parts`, in order.
pub open spec fn segment_events<T>(open: Seq<u8>, close: Seq<u8>, parts: Seq<Segment>) -> Seq<
    EventView<T>,
> {
    Seq::new(parts.len(), |i: int| segment_event(open, close, parts[i]))
}

/// The events that take the place of `event`: for a text event those of its
/// segments, for any other event the event itself, and none at the end of the
/// document.
pub open spec fn expansion<T>(open: Seq<u8>, close: Seq<u8>, event: Option<Event<T>>) -> Seq<
    EventView<T>,
> {
    match event {
        Some(Event::Text(text)) => segment_events(open, close, segments(encode_utf8(text@))),
        Some(other) => seq![other@],
        None => Seq::empty(),
    }
}

/// The events of `q`, by what they say.
pub open spec fn views<T>(q: Seq<Event<T>>) -> Seq<EventView<T>> {
    Seq::new(q.len(), |i: int| q[i]@)
}

/// A queue of events in which ruby commands have been replaced by markup.
#[derive(Debug)]
pub struct Filter<T> {
    renderer: HtmlRenderer,
    queue: VecDeque<Event<T>>,
}

impl<T> Filter<T> {
    /// The events that wait to be taken out, first the oldest.
    pub closed spec fn queued(self) -> Seq<EventView<T>> {
        views(self.queue@)
    }

    /// The opening parenthesis of the renderer, as bytes.
    pub closed spec fn open(self) -> Seq<u8> {
        self.renderer.open()
    }

    /// The closing parenthesis of the renderer, as bytes.
    pub closed spec fn close(self) -> Seq<u8> {
        self.renderer.close()
    }

    /// An empty queue, with the full-width parentheses `（` and `）`.
    pub fn new() -> (r: Self)
        ensures
            r.queued().len() == 0,
            r.open() == "（".spec_bytes(),
            r.close() == "）".spec_bytes(),
    {
        Self { renderer: HtmlRenderer::new(), queue: VecDeque::new() }
    }

    /// Takes the oldest event out of the queue.
    pub fn pop(&mut self) -> (r: Option<Event<T>>)
        ensures
            final(self).open() == old(self).open(),
            final(self).close() == old(self).close(),
            match r {
                Some(event) => old(self).queued().len() > 0 && event@ == old(self).queued()[0]
                    && final(self).queued() == old(self).queued().drop_first(),
                None => old(self).queued().len() == 0 && final(self).queued() == old(
                    self,
                ).queued(),
            },
    {
        let r = self.queue.pop_front();
        proof {
            if r is Some {
                assert(views(self.queue@) =~= views(old(self).queue@).drop_first());
            }
        }
        r
    }

    /// Puts the events that take the place of `event` at the end of the
    /// queue. `event` is the next event of the document, or `None` at its
    /// end.
    pub fn feed(&mut self, event: Option<Event<T>>)
        ensures
            final(self).open() == old(self).open(),
            final(self).close() == old(self).close(),
            final(self).queued() == old(self).queued() + expansion(
                old(self).open(),
                old(self).close(),
                event,
            ),
    {
        let ghost open = self.open();
        let ghost close = self.close();
        let ghost start = self.queued();
        match event {
            Some(Event::Text(text)) => {
                let ghost all = segments(encode_utf8(text@));
                let mut filter = LatexLikeFilter::new(text.as_str());
                proof {
                    assert(start + segment_events::<T>(open, close, all.subrange(0, 0)) =~= start);
                    assert(all.subrange(0, all.len() as int) =~= all);
                }
                let ghost mut done: int = 0;
                loop
                    invariant
                        0 <= done <= all.len(),
                        filter.remaining() == all.subrange(done, all.len() as int),
                        self.open() == open,
                        self.close() == close,
                        self.queued() == start + segment_events::<T>(
                            open,
                            close,
                            all.subrange(0, done),
                        ),
                    ensures
                        done == all.len(),
                    decreases all.len() - done,
                {
                    let ghost before = self.queued();
                    let ghost current = filter.remaining();
                    let next = match filter.next() {
                        None => {
                            break ;
                        },
                        Some(Ok(Filtered::Plain(plain))) => Event::Text(plain.to_owned()),
                        Some(Ok(Filtered::Ruby(ruby))) => {
                            let mut buf = String::new();
                            self.renderer.render(&ruby, &mut buf);
                            proof {
                                assert(encode_utf8(buf@) =~= ruby_markup(open, close, ruby@));
                            }
                            Event::Html(buf)
                        },
                        Some(Err(error)) => Event::Text(error.source.to_owned()),
                    };
                    proof {
                        assert(current[0] == all[done]);
                        assert(next@ == segment_event::<T>(open, close, all[done]));
                        assert(current.drop_first() =~= all.subrange(done + 1, all.len() as int));
                    }
                    self.queue.push_back(next);
                    proof {
                        assert(self.queued() =~= before.push(next@));
                        assert(all.subrange(0, done + 1) =~= all.subrange(0, done).push(all[done]));
                        assert(segment_events::<T>(open, close, all.subrange(0, done + 1))
                            =~= segment_events::<T>(open, close, all.subrange(0, done)).push(
                            next@,
                        ));
                        done = done + 1;
                    }
                }
                proof {
                    assert(all.subrange(0, done) =~= all);
                }
            },
            Some(other) => {
                self.queue.push_back(other);
                proof {
                    assert(self.queued() =~= start + seq![other@]);
                }
            },
            None => {
                proof {
                    assert(self.queued() =~= start + Seq::<EventView<T>>::empty());
                }
            },
        }
    }
}

} // verus!
