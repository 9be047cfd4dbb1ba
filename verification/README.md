# buddy_system_allocator

Buddy allocators, written in Rust and verified with Verus.

- `MetadataHeap<ORDER, MIN_ORDER>` manages a memory region by addresses. It keeps one
  record per minimal unit, so that the state of a block's buddy is found in one step.
- `LockedMetadataHeap` is the same behind a `spin` lock.
- `FrameAllocator<ORDER>` hands out runs of numbered frames.

The library keeps the books; it never reads or writes the memory that it manages. `app/`
puts raw pointers on top of it.

## Layout

| module | contents |
| --- | --- |
| `bits` | powers of two, orders, rounding |
| `blocks` | naturally aligned blocks: buddies, packings, tilings, and why merged packings are unique |
| `region` | how a region is divided into records and units |
| `table` | the records, and the doubly linked free lists threaded through them |
| `model` | the mathematical model of the heap: free lists by order, live grants, statistics |
| `metadata_heap` | the heap itself |
| `laws` | what holds of the heap whatever the calls |
| `locked` | the heap behind a lock |
| `sorted`, `frame_model`, `frame`, `frame_laws` | the frame allocator |
| `layout` | size and alignment of a request |

A call's contract says what the model is after the call, in terms of what it was before:
`after_alloc`, `after_dealloc` and `carve` for the heap, `after_take` and `after_dealloc`
for the frame allocator.
