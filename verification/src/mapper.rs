//! The order-preserving map: a plan of tasks, the work of one task, and the
//! run of a whole plan.

use vstd::prelude::*;
use crate::chunks::{
    assemble, chunks_of, lemma_chunks_flatten, lemma_chunks_len, partition, views,
};
use crate::policy::{select, select_spec, spawned_tasks, Strategy, MIN_BOUND};

verus! {

/// `f` may be called on every element of `input`.
pub open spec fn callable_on<T, R, F: Fn(T) -> R>(f: F, input: Seq<T>) -> bool {
    forall|i: int| 0 <= i < input.len() ==> call_requires(f, (#[trigger] input[i],))
}

/// `out` is an image of `input` under `f`, element by element and in the same
/// order: `out[i]` is a value that `f` returns for `input[i]`.
pub open spec fn maps_to<T, R, F: Fn(T) -> R>(f: F, input: Seq<T>, out: Seq<R>) -> bool {
    &&& out.len() == input.len()
    &&& forall|i: int| 0 <= i < input.len() ==> call_ensures(f, (input[i],), #[trigger] out[i])
}

/// `f` is deterministic, and `g` says what it returns.
pub open spec fn computes<T, R, F: Fn(T) -> R>(f: F, g: spec_fn(T) -> R) -> bool {
    forall|x: T, y: R| #[trigger] call_ensures(f, (x,), y) ==> y == g(x)
}

/// Applies `mapper` to the elements of `v`, first to last, on the calling
/// thread. This is the whole map for a short input and the work of one task
/// otherwise.
pub fn serial_map<T, R, F>(v: Vec<T>, mapper: F) -> (out: Vec<R>) where F: Fn(T) -> R
    requires
        callable_on(mapper, v@),
    ensures
        maps_to(mapper, v@, out@),
{
    let ghost input = v@;
    let mut out: Vec<R> = Vec::new();
    for x in it: v.into_iter()
        invariant
            it.seq() == input,
            callable_on(mapper, input),
            maps_to(mapper, input.take(it.index() as int), out@),
    {
        assert(x == input[it.index() as int]);
        let y = mapper(x);
        out.push(y);
    }
    proof {
        assert(input.take(input.len() as int) =~= input);
    }
    out
}

/// How an input is to be worked off.
pub enum Plan<T> {
    /// The whole input is mapped on the calling thread; nothing runs beside it.
    Inline(Vec<T>),
    /// Every task is handed to a thread of its own. The tasks are contiguous
    /// runs of the input and follow each other as their elements did.
    Spawn(Vec<Vec<T>>),
}

/// What a [`Plan`] holds, as sequences.
pub ghost enum PlanView<T> {
    Inline(Seq<T>),
    Spawn(Seq<Seq<T>>),
}

impl<T> View for Plan<T> {
    type V = PlanView<T>;

    open spec fn view(&self) -> PlanView<T> {
        match self {
            Plan::Inline(items) => PlanView::Inline(items@),
            Plan::Spawn(tasks) => PlanView::Spawn(views(tasks@)),
        }
    }
}

impl<T> PlanView<T> {
    /// The elements of the plan, in input order.
    pub open spec fn items(self) -> Seq<T> {
        match self {
            PlanView::Inline(items) => items,
            PlanView::Spawn(tasks) => tasks.flatten(),
        }
    }

    /// Number of tasks that run concurrently.
    pub open spec fn spawned(self) -> nat {
        match self {
            PlanView::Inline(_) => 0,
            PlanView::Spawn(tasks) => tasks.len(),
        }
    }
}

/// A strategy that a plan can be laid out for: chunks hold at least one
/// element.
pub open spec fn usable(strategy: Strategy) -> bool {
    strategy matches Strategy::Chunked { chunk_size } ==> chunk_size > 0
}

/// The plan that `strategy` makes of `input`.
pub open spec fn lay_out<T>(input: Seq<T>, strategy: Strategy) -> PlanView<T> {
    match strategy {
        Strategy::Serial => PlanView::Inline(input),
        Strategy::OneTaskPerElement => PlanView::Spawn(chunks_of(input, 1)),
        Strategy::Chunked { chunk_size } => PlanView::Spawn(chunks_of(input, chunk_size as nat)),
    }
}

/// Lays `v` out as `strategy` says, moving every element into the plan.
pub fn plan_with<T>(v: Vec<T>, strategy: Strategy) -> (plan: Plan<T>)
    requires
        usable(strategy),
    ensures
        plan@ == lay_out(v@, strategy),
{
    match strategy {
        Strategy::Serial => Plan::Inline(v),
        Strategy::OneTaskPerElement => Plan::Spawn(partition(v, 1)),
        Strategy::Chunked { chunk_size } => Plan::Spawn(partition(v, chunk_size)),
    }
}

/// Lays `v` out by the strategy that its length selects.
pub fn plan<T>(v: Vec<T>) -> (plan: Plan<T>)
    ensures
        plan@ == lay_out(v@, select_spec(v@.len())),
{
    let strategy = select(v.len());
    plan_with(v, strategy)
}

/// Works off `tasks` one after another, each by [`serial_map`], and hands
/// back their results in task order.
pub fn run_tasks<T, R, F>(tasks: Vec<Vec<T>>, mapper: F) -> (results: Vec<Vec<R>>) where
    F: Fn(T) -> R + Copy,

    requires
        forall|k: int| 0 <= k < tasks@.len() ==> callable_on(mapper, (#[trigger] tasks@[k])@),
    ensures
        results@.len() == tasks@.len(),
        forall|k: int|
            0 <= k < tasks@.len() ==> maps_to(mapper, tasks@[k]@, (#[trigger] results@[k])@),
{
    let ghost all = tasks@;
    let mut results: Vec<Vec<R>> = Vec::new();
    for task in it: tasks.into_iter()
        invariant
            it.seq() == all,
            forall|k: int| 0 <= k < all.len() ==> callable_on(mapper, (#[trigger] all[k])@),
            results@.len() == it.index(),
            forall|k: int|
                0 <= k < it.index() ==> maps_to(mapper, all[k]@, (#[trigger] results@[k])@),
    {
        assert(task == all[it.index() as int]);
        let result = serial_map(task, mapper);
        results.push(result);
    }
    results
}

/// Works a plan off on the calling thread: the inline part by
/// [`serial_map`], the tasks by [`run_tasks`], their results put together by
/// [`assemble`]. The result is an image of the plan's elements, in their
/// order.
pub fn run_plan<T, R, F>(plan: Plan<T>, mapper: F) -> (out: Vec<R>) where F: Fn(T) -> R + Copy
    requires
        callable_on(mapper, plan@.items()),
    ensures
        maps_to(mapper, plan@.items(), out@),
{
    match plan {
        Plan::Inline(items) => serial_map(items, mapper),
        Plan::Spawn(tasks) => {
            proof {
                lemma_callable_on_parts(mapper, views(tasks@));
                assert forall|k: int| 0 <= k < tasks@.len() implies callable_on(
                    mapper,
                    (#[trigger] tasks@[k])@,
                ) by {
                    assert(views(tasks@)[k] == tasks@[k]@);
                }
            }
            let results = run_tasks(tasks, mapper);
            proof {
                assert forall|k: int| 0 <= k < views(tasks@).len() implies maps_to(
                    mapper,
                    #[trigger] views(tasks@)[k],
                    views(results@)[k],
                ) by {
                    assert(views(tasks@)[k] == tasks@[k]@);
                    assert(views(results@)[k] == results@[k]@);
                }
                lemma_maps_to_parts(mapper, views(tasks@), views(results@));
            }
            assemble(results)
        },
    }
}

/// Maps `mapper` over `v` and keeps the order: the result has one element
/// for each element of `v`, and its `i`-th element is what `mapper` returned
/// for the `i`-th element of `v`, however the input was cut into tasks. With
/// a deterministic `mapper` the result is the input with `mapper` applied to
/// every element.
///
/// The input is laid out by [`plan`], and the plan is worked off on the
/// calling thread by [`run_plan`]. Elements, results and `mapper` have to be
/// fit to move to another thread, so that a runner which hands each task to
/// a thread can take the place of this one.
pub fn worker<T, R, F>(v: Vec<T>, mapper: F) -> (out: Vec<R>) where
    T: Send + 'static,
    R: Send + 'static,
    F: Fn(T) -> R + Copy + Send + 'static,

    requires
        callable_on(mapper, v@),
    ensures
        out@.len() == v@.len(),
        maps_to(mapper, v@, out@),
        forall|g: spec_fn(T) -> R| #[trigger] computes(mapper, g) ==> out@ == v@.map_values(g),
{
    let ghost input = v@;
    let laid_out = plan(v);
    proof {
        lemma_lay_out_keeps_items(input, select_spec(input.len()));
    }
    let out = run_plan(laid_out, mapper);
    proof {
        assert forall|g: spec_fn(T) -> R| #[trigger] computes(mapper, g) implies out@
            == input.map_values(g) by {
            lemma_image_is_determined(mapper, g, input, out@);
        }
    }
    out
}

/// Whatever the strategy, a plan holds the elements of the input, each once
/// and in input order.
pub proof fn lemma_lay_out_keeps_items<T>(input: Seq<T>, strategy: Strategy)
    requires
        usable(strategy),
    ensures
        lay_out(input, strategy).items() == input,
{
    match strategy {
        Strategy::Serial => {},
        Strategy::OneTaskPerElement => lemma_chunks_flatten(input, 1),
        Strategy::Chunked { chunk_size } => lemma_chunks_flatten(input, chunk_size as nat),
    }
}

/// The plan for an input spawns as many tasks as the strategy for its length
/// asks for. For an input shorter than `MIN_BOUND` that is none: the whole
/// input is mapped on the calling thread.
pub proof fn lemma_plan_spawns<T>(input: Seq<T>)
    ensures
        lay_out(input, select_spec(input.len())).spawned() == spawned_tasks(input.len()),
        input.len() < MIN_BOUND <==> lay_out(input, select_spec(input.len())) == PlanView::Inline(
            input,
        ),
{
    match select_spec(input.len()) {
        Strategy::Serial => {},
        Strategy::OneTaskPerElement => {
            lemma_chunks_len(input, 1);
        },
        Strategy::Chunked { chunk_size } => {
            lemma_chunks_len(input, chunk_size as nat);
        },
    }
}

/// An input shorter than `MIN_BOUND` is mapped on the calling thread alone:
/// its plan spawns nothing, and with a deterministic `f` the map returns
/// what [`serial_map`] returns. Here `mapped` is a result of [`worker`] and
/// `serial` one of [`serial_map`], on the same input.
pub proof fn lemma_short_input_is_mapped_serially<T, R, F: Fn(T) -> R>(
    f: F,
    g: spec_fn(T) -> R,
    input: Seq<T>,
    mapped: Seq<R>,
    serial: Seq<R>,
)
    requires
        input.len() < MIN_BOUND,
        computes(f, g),
        maps_to(f, input, mapped),
        maps_to(f, input, serial),
    ensures
        lay_out(input, select_spec(input.len())) == PlanView::Inline(input),
        lay_out(input, select_spec(input.len())).spawned() == 0,
        mapped == serial,
{
    lemma_map_is_repeatable(f, g, input, mapped, serial);
}

/// If `f` may be called on every element of the parts put end to end, it may
/// be called on every element of every part.
pub proof fn lemma_callable_on_parts<T, R, F: Fn(T) -> R>(f: F, parts: Seq<Seq<T>>)
    requires
        callable_on(f, parts.flatten()),
    ensures
        forall|k: int| 0 <= k < parts.len() ==> callable_on(f, #[trigger] parts[k]),
    decreases parts.len(),
{
    if parts.len() > 0 {
        let head = parts.first();
        let tail = parts.drop_first();
        let whole = parts.flatten();
        assert(whole == head + tail.flatten());
        assert forall|i: int| 0 <= i < tail.flatten().len() implies call_requires(
            f,
            (#[trigger] tail.flatten()[i],),
        ) by {
            assert(tail.flatten()[i] == whole[head.len() + i]);
        }
        lemma_callable_on_parts(f, tail);
        assert forall|k: int| 0 <= k < parts.len() implies callable_on(f, #[trigger] parts[k]) by {
            if k == 0 {
                assert forall|i: int| 0 <= i < head.len() implies call_requires(
                    f,
                    (#[trigger] head[i],),
                ) by {
                    assert(head[i] == whole[i]);
                }
            } else {
                assert(parts[k] == tail[k - 1]);
            }
        }
    }
}

/// Images of the parts, put end to end in the order of the parts, are an
/// image of the parts put end to end.
pub proof fn lemma_maps_to_parts<T, R, F: Fn(T) -> R>(
    f: F,
    parts: Seq<Seq<T>>,
    images: Seq<Seq<R>>,
)
    requires
        images.len() == parts.len(),
        forall|k: int| 0 <= k < parts.len() ==> maps_to(f, #[trigger] parts[k], images[k]),
    ensures
        maps_to(f, parts.flatten(), images.flatten()),
    decreases parts.len(),
{
    if parts.len() > 0 {
        let head = parts.first();
        let tail = parts.drop_first();
        let head_image = images.first();
        let tail_image = images.drop_first();
        assert(maps_to(f, head, head_image));
        assert forall|k: int| 0 <= k < tail.len() implies maps_to(
            f,
            #[trigger] tail[k],
            tail_image[k],
        ) by {
            assert(maps_to(f, parts[k + 1], images[k + 1]));
        }
        lemma_maps_to_parts(f, tail, tail_image);
        let whole = parts.flatten();
        let whole_image = images.flatten();
        assert(whole == head + tail.flatten());
        assert(whole_image == head_image + tail_image.flatten());
        assert forall|i: int| 0 <= i < whole.len() implies call_ensures(
            f,
            (whole[i],),
            #[trigger] whole_image[i],
        ) by {
            if i < head.len() {
                assert(whole_image[i] == head_image[i]);
            } else {
                assert(whole_image[i] == tail_image.flatten()[i - head.len()]);
                assert(whole[i] == tail.flatten()[i - head.len()]);
            }
        }
    }
}

/// Where `f` is deterministic, the image of an input is the input with `g`
/// applied to every element.
pub proof fn lemma_image_is_determined<T, R, F: Fn(T) -> R>(
    f: F,
    g: spec_fn(T) -> R,
    input: Seq<T>,
    out: Seq<R>,
)
    requires
        computes(f, g),
        maps_to(f, input, out),
    ensures
        out == input.map_values(g),
{
    assert(out =~= input.map_values(g));
}

/// Mapping the same input twice with a deterministic `f` gives the same
/// sequence twice.
pub proof fn lemma_map_is_repeatable<T, R, F: Fn(T) -> R>(
    f: F,
    g: spec_fn(T) -> R,
    input: Seq<T>,
    first: Seq<R>,
    second: Seq<R>,
)
    requires
        computes(f, g),
        maps_to(f, input, first),
        maps_to(f, input, second),
    ensures
        first == second,
{
    lemma_image_is_determined(f, g, input, first);
    lemma_image_is_determined(f, g, input, second);
}

} // verus!
