//! Finding a remote object.
//!
//! The endpoints of a remote store are asked in turn whether they have the object. The
//! first one that answers so settles the size of the object.
use vstd::prelude::*;
use crate::config::StoreConfig;

verus! {

/// The parts of a text between its commas.
pub open spec fn between_commas(text: Seq<char>) -> Seq<Seq<char>>
    decreases text.len(),
{
    if text.len() == 0 {
        seq![Seq::empty()]
    } else {
        let before = between_commas(text.drop_last());
        if text.last() == ',' {
            before.push(Seq::empty())
        } else {
            before.drop_last().push(before.last().push(text.last()))
        }
    }
}

/// Texts one after the other, with a comma between them.
pub open spec fn with_commas(parts: Seq<Seq<char>>) -> Seq<char>
    decreases parts.len(),
{
    if parts.len() == 0 {
        Seq::empty()
    } else if parts.len() == 1 {
        parts[0]
    } else {
        with_commas(parts.drop_last()).push(',') + parts.last()
    }
}

/// The texts of some strings.
pub open spec fn texts(strings: Seq<String>) -> Seq<Seq<char>> {
    Seq::new(strings.len(), |i: int| strings[i]@)
}

/// There is always a part, if only an empty one.
proof fn lemma_has_part(text: Seq<char>)
    ensures
        between_commas(text).len() >= 1,
    decreases text.len(),
{
    if text.len() > 0 {
        lemma_has_part(text.drop_last());
    }
}

/// Cuts a list of endpoints at its commas.
pub fn split_endpoints(list: &str) -> (r: Vec<String>)
    ensures
        texts(r@) == between_commas(list@),
{
    let len: usize = list.unicode_len();
    let mut parts: Vec<String> = Vec::new();
    let mut begin: usize = 0;
    let mut at: usize = 0;
    proof {
        assert(list@.take(0) =~= Seq::<char>::empty());
        assert(list@.subrange(0, 0) =~= Seq::<char>::empty());
        assert(texts(parts@).push(list@.subrange(0, 0)) =~= seq![Seq::<char>::empty()]);
    }
    while at < len
        invariant
            len == list@.len(),
            begin <= at <= len,
            texts(parts@).push(list@.subrange(begin as int, at as int)) == between_commas(
                list@.take(at as int),
            ),
        decreases len - at,
    {
        let c: char = list.get_char(at);
        let ghost before = between_commas(list@.take(at as int));
        let ghost old_parts = texts(parts@);
        proof {
            assert(list@.take(at + 1).drop_last() =~= list@.take(at as int));
            assert(list@.take(at + 1).last() == c);
        }
        if c == ',' {
            let part = list.substring_char(begin, at);
            parts.push(part.to_owned());
            begin = at + 1;
            proof {
                assert(texts(parts@) =~= old_parts.push(part@));
                assert(list@.subrange(begin as int, at + 1) =~= Seq::<char>::empty());
            }
        } else {
            proof {
                assert(before.drop_last() =~= old_parts);
                assert(before.last() == list@.subrange(begin as int, at as int));
                assert(list@.subrange(begin as int, at + 1) =~= before.last().push(c));
            }
        }
        at = at + 1;
    }
    let part = list.substring_char(begin, len);
    let ghost old_parts = texts(parts@);
    parts.push(part.to_owned());
    proof {
        assert(texts(parts@) =~= old_parts.push(part@));
        assert(list@.take(len as int) =~= list@);
    }
    parts
}

/// The parts of a list of endpoints hold no comma, and with commas between them they
/// are the list.
pub proof fn law_endpoints_make_list(list: Seq<char>)
    ensures
        with_commas(between_commas(list)) == list,
        forall|i: int|
            0 <= i < between_commas(list).len() ==> !(#[trigger] between_commas(list)[i]).contains(
                ',',
            ),
    decreases list.len(),
{
    let parts = between_commas(list);
    if list.len() > 0 {
        let rest = list.drop_last();
        let before = between_commas(rest);
        law_endpoints_make_list(rest);
        lemma_has_part(rest);
        assert(rest.push(list.last()) =~= list);
        if list.last() == ',' {
            assert(parts.drop_last() =~= before);
            assert(with_commas(parts) =~= rest.push(','));
        } else {
            assert(parts.drop_last() =~= before.drop_last());
            assert(parts.last() == before.last().push(list.last()));
            assert(with_commas(parts) =~= rest.push(list.last()));
            assert forall|i: int| 0 <= i < parts.len() implies !(#[trigger] parts[i]).contains(
                ',',
            ) by {
                if i == parts.len() - 1 {
                    assert(before[i] == before.last());
                    assert forall|j: int| 0 <= j < parts[i].len() implies parts[i][j] != ',' by {
                        if j < before.last().len() {
                            assert(before[i].contains(before[i][j]));
                        }
                    }
                } else {
                    assert(parts[i] == before[i]);
                }
            }
        }
    }
}

/// What came back from an endpoint that was asked for the object.
#[derive(Clone, Copy, Debug, PartialEq, Eq, Structural)]
pub enum HeadReply {
    /// The request failed.
    Failed,
    /// The endpoint answered with a status code and, where it has the object, the size
    /// of the object.
    Answered { code: u16, size: Option<usize> },
}

/// The status code of an endpoint that has the object.
pub const FOUND: u16 = 200;

impl HeadReply {
    /// Whether the endpoint has the object.
    pub open spec fn found(self) -> bool {
        self matches HeadReply::Answered { code, .. } && code == FOUND
    }

    /// The size of the object, where the endpoint has it.
    pub open spec fn object_size(self) -> Option<usize> {
        if self.found() {
            self->size
        } else {
            None
        }
    }

    /// Whether the endpoint says how large the object is, if it has it.
    pub open spec fn complete(self) -> bool {
        self.found() ==> self->size is Some
    }
}

/// The endpoints of a remote store while they are asked in turn.
#[derive(Debug)]
pub struct OssProbe {
    endpoints: Vec<String>,
    asked: usize,
    size: Option<usize>,
}

/// What is known of the endpoints.
#[verifier::ext_equal]
pub struct ProbeView {
    pub endpoints: Seq<Seq<char>>,
    /// How many of them have been asked.
    pub asked: nat,
    /// The size of the object, once an endpoint had it.
    pub size: Option<usize>,
}

impl ProbeView {
    /// Before any endpoint is asked.
    pub open spec fn begin(endpoints: Seq<Seq<char>>) -> Self {
        ProbeView { endpoints, asked: 0, size: None }
    }

    /// Whether there is an endpoint to ask: the object has not been found, and not all have
    /// been asked.
    pub open spec fn asking(self) -> bool {
        self.size is None && self.asked < self.endpoints.len()
    }

    /// After the next endpoint has replied.
    pub open spec fn after_reply(self, reply: HeadReply) -> Self {
        ProbeView { asked: self.asked + 1, size: reply.object_size(), ..self }
    }
}

impl View for OssProbe {
    type V = ProbeView;

    closed spec fn view(&self) -> ProbeView {
        ProbeView {
            endpoints: texts(self.endpoints@),
            asked: self.asked as nat,
            size: self.size,
        }
    }
}

impl OssProbe {
    /// Begins with the first endpoint of a configuration.
    pub fn new(config: &StoreConfig) -> (r: Self)
        ensures
            r@ == ProbeView::begin(between_commas(config@.oss_config.endpoints)),
    {
        OssProbe {
            endpoints: split_endpoints(config.oss_config.endpoints.as_str()),
            asked: 0,
            size: None,
        }
    }

    /// The endpoint to ask next, unless the object was found or all have been asked.
    pub fn endpoint(&self) -> (r: Option<&String>)
        ensures
            match r {
                Some(endpoint) => self@.asking() && endpoint@
                    == self@.endpoints[self@.asked as int],
                None => !self@.asking(),
            },
    {
        if self.size.is_none() && self.asked < self.endpoints.len() {
            Some(&self.endpoints[self.asked])
        } else {
            None
        }
    }

    /// Takes the reply of the endpoint.
    pub fn replied(&mut self, reply: HeadReply)
        requires
            old(self)@.asking(),
            reply.complete(),
        ensures
            final(self)@ == old(self)@.after_reply(reply),
            final(self)@.endpoints == old(self)@.endpoints,
            final(self)@.asked == old(self)@.asked + 1,
            final(self)@.size == (match reply {
                HeadReply::Answered { code: 200, size } => size,
                _ => None,
            }),
    {
        proof {
            assert(self.endpoints.len() == self.endpoints@.len());
        }
        self.asked = self.asked + 1;
        self.size = match reply {
            HeadReply::Failed => None,
            HeadReply::Answered { code, size } => if code == FOUND {
                size
            } else {
                None
            },
        };
    }

    /// The size of the object, once an endpoint had it.
    pub fn size(&self) -> (r: Option<usize>)
        ensures
            r == self@.size,
    {
        self.size
    }
}

/// What is known once the endpoints have been asked as long as there is one to ask and a
/// reply to come.
pub open spec fn probed(probe: ProbeView, replies: Seq<HeadReply>) -> ProbeView
    decreases replies.len(),
{
    if replies.len() == 0 || !probe.asking() {
        probe
    } else {
        probed(probe.after_reply(replies[0]), replies.drop_first())
    }
}

/// Asking ends with the first endpoint that has the object: no later one is asked, and the
/// size is the one it replied.
pub proof fn law_first_endpoint_wins(probe: ProbeView, replies: Seq<HeadReply>, first: int)
    requires
        probe.size is None,
        probe.asked + first < probe.endpoints.len(),
        0 <= first < replies.len(),
        replies[first].found(),
        replies[first].complete(),
        forall|i: int| 0 <= i < first ==> !(#[trigger] replies[i]).found(),
    ensures
        probed(probe, replies) == (ProbeView {
            asked: (probe.asked + first + 1) as nat,
            size: replies[first].object_size(),
            ..probe
        }),
        probed(probe, replies).size is Some,
        !probed(probe, replies).asking(),
    decreases first,
{
    let rest = replies.drop_first();
    let next = probe.after_reply(replies[0]);
    if first > 0 {
        assert forall|i: int| 0 <= i < first - 1 implies !(#[trigger] rest[i]).found() by {
            assert(rest[i] == replies[i + 1]);
        }
        assert(!replies[0].found());
        law_first_endpoint_wins(next, rest, first - 1);
    } else {
        assert(probed(next, rest) == next);
    }
}

/// Where no endpoint has the object, all are asked and no size is found.
pub proof fn law_no_endpoint_found(probe: ProbeView, replies: Seq<HeadReply>)
    requires
        probe.size is None,
        probe.asked + replies.len() == probe.endpoints.len(),
        forall|i: int| 0 <= i < replies.len() ==> !(#[trigger] replies[i]).found(),
    ensures
        probed(probe, replies) == (ProbeView { asked: probe.endpoints.len(), ..probe }),
        !probed(probe, replies).asking(),
    decreases replies.len(),
{
    if replies.len() > 0 {
        let rest = replies.drop_first();
        assert forall|i: int| 0 <= i < rest.len() implies !(#[trigger] rest[i]).found() by {
            assert(rest[i] == replies[i + 1]);
        }
        assert(!replies[0].found());
        law_no_endpoint_found(probe.after_reply(replies[0]), rest);
    }
}

/// Whether part `i` of a list stands in it where it is said to begin: up to the comma before
/// the next part, or up to the end of the list.
pub open spec fn part_stands(
    list: Seq<char>,
    parts: Seq<Seq<char>>,
    begins: Seq<int>,
    i: int,
) -> bool {
    let end = begins[i] + parts[i].len();
    &&& 0 <= begins[i]
    &&& end <= list.len()
    &&& parts[i] == list.subrange(begins[i], end)
    &&& i + 1 < parts.len() ==> begins[i + 1] == end + 1 && list[end] == ','
    &&& i + 1 == parts.len() ==> end == list.len()
}

/// Where each part of a list of endpoints begins.
proof fn lemma_parts_lie_in_list(list: Seq<char>) -> (begins: Seq<int>)
    ensures
        begins.len() == between_commas(list).len(),
        begins.len() >= 1,
        begins[0] == 0,
        forall|i: int|
            0 <= i < begins.len() ==> #[trigger] part_stands(
                list,
                between_commas(list),
                begins,
                i,
            ),
    decreases list.len(),
{
    let parts = between_commas(list);
    if list.len() == 0 {
        let begins = seq![0int];
        assert(list.subrange(0, 0) =~= Seq::<char>::empty());
        assert(part_stands(list, parts, begins, 0));
        begins
    } else {
        let rest = list.drop_last();
        let before = between_commas(rest);
        let prior = lemma_parts_lie_in_list(rest);
        let n = prior.len() as int;
        assert(part_stands(rest, before, prior, n - 1));
        if list.last() == ',' {
            let begins = prior.push(list.len() as int);
            assert(parts == before.push(Seq::empty()));
            assert forall|i: int| 0 <= i < begins.len() implies #[trigger] part_stands(
                list,
                parts,
                begins,
                i,
            ) by {
                if i < n {
                    assert(part_stands(rest, before, prior, i));
                    if i + 1 < n {
                        assert(part_stands(rest, before, prior, i + 1));
                    }
                    let end = begins[i] + parts[i].len();
                    assert(rest.subrange(begins[i], end) =~= list.subrange(begins[i], end));
                } else {
                    assert(list.subrange(list.len() as int, list.len() as int) =~= Seq::<
                        char,
                    >::empty());
                }
            }
            begins
        } else {
            assert(parts == before.drop_last().push(before.last().push(list.last())));
            assert forall|i: int| 0 <= i < prior.len() implies #[trigger] part_stands(
                list,
                parts,
                prior,
                i,
            ) by {
                assert(part_stands(rest, before, prior, i));
                let end = prior[i] + parts[i].len();
                if i + 1 < n {
                    assert(part_stands(rest, before, prior, i + 1));
                    assert(parts[i] == before[i]);
                    assert(rest.subrange(prior[i], end) =~= list.subrange(prior[i], end));
                } else {
                    assert(parts[i] == before[i].push(list.last()));
                    assert(parts[i] =~= list.subrange(prior[i], end));
                }
            }
            prior
        }
    }
}

/// The endpoints of a list are the runs of characters between its commas, in their order:
/// each is a part of the list that holds no comma, the first begins where the list begins,
/// each other one behind the comma that ends the one before it, and the last ends where the
/// list ends.
pub proof fn law_endpoints_lie_between_commas(
    list: &str,
    r: Vec<String>,
    parts: Seq<Seq<char>>,
) -> (begins: Seq<int>)
    requires
        call_ensures(split_endpoints, (list,), r),
        parts.len() == r@.len(),
        forall|i: int| 0 <= i < parts.len() ==> #[trigger] parts[i] == r@[i]@,
    ensures
        begins.len() == parts.len(),
        parts.len() >= 1,
        begins[0] == 0,
        forall|i: int|
            0 <= i < parts.len() ==> #[trigger] part_stands(list@, parts, begins, i)
                && !parts[i].contains(','),
{
    let begins = lemma_parts_lie_in_list(list@);
    law_endpoints_make_list(list@);
    let split = between_commas(list@);
    assert(texts(r@) =~= parts);
    assert(parts == split);
    assert forall|i: int| 0 <= i < parts.len() implies #[trigger] part_stands(
        list@,
        parts,
        begins,
        i,
    ) && !parts[i].contains(',') by {
        assert(!split[i].contains(','));
    }
    begins
}

/// A probe begins with the first endpoint of its configuration. It names the endpoint to ask
/// as long as no size was found and one is left.
pub proof fn law_probe_names_endpoints(
    config: StoreConfig,
    list: &str,
    parts: Vec<String>,
    fresh: OssProbe,
    probe: OssProbe,
    first: Option<&String>,
    next: Option<&String>,
    size: Option<usize>,
)
    requires
        call_ensures(OssProbe::new, (&config,), fresh),
        list@ == config.oss_config.endpoints@,
        call_ensures(split_endpoints, (list,), parts),
        call_ensures(OssProbe::endpoint, (&fresh,), first),
        call_ensures(OssProbe::endpoint, (&probe,), next),
        call_ensures(OssProbe::size, (&probe,), size),
    ensures
        fresh@.asked == 0,
        fresh@.size is None,
        fresh@.endpoints.len() == parts@.len(),
        forall|i: int| 0 <= i < parts@.len() ==> #[trigger] fresh@.endpoints[i] == parts@[i]@,
        parts@.len() > 0 ==> first is Some && first.unwrap()@ == parts@[0]@,
        size == probe@.size,
        next is Some <==> size is None && probe@.asked < probe@.endpoints.len(),
        next matches Some(endpoint) ==> endpoint@ == probe@.endpoints[probe@.asked as int],
{
    let split = between_commas(list@);
    assert(texts(parts@) == split);
    assert(fresh@.endpoints.len() == parts@.len());
    assert forall|i: int| 0 <= i < parts@.len() implies #[trigger] fresh@.endpoints[i]
        == parts@[i]@ by {
        assert(texts(parts@)[i] == split[i]);
    }
}

/// Asking in turn ends at the first endpoint that answers with the code of an object that is
/// there, whatever later ones would have answered: its size is the one taken, and it is the
/// last endpoint asked.
pub proof fn law_first_answer_counts(
    endpoints: Seq<Seq<char>>,
    replies: Seq<HeadReply>,
    first: int,
    bytes: usize,
)
    requires
        0 <= first < replies.len(),
        first < endpoints.len(),
        replies[first] == (HeadReply::Answered { code: 200, size: Some(bytes) }),
        forall|i: int|
            0 <= i < first ==> match #[trigger] replies[i] {
                HeadReply::Failed => true,
                HeadReply::Answered { code, size } => code != 200,
            },
    ensures
        ({
            let end = probed(ProbeView { endpoints, asked: 0, size: None }, replies);
            &&& end.size == Some(bytes)
            &&& end.asked == first + 1
            &&& end.endpoints == endpoints
        }),
{
    let probe = ProbeView { endpoints, asked: 0, size: None };
    assert forall|i: int| 0 <= i < first implies !(#[trigger] replies[i]).found() by {}
    law_first_endpoint_wins(probe, replies, first);
}

} // verus!
