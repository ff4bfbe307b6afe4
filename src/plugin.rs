use vstd::prelude::*;

verus! {

/// `i` is the first plugin that answered.
pub open spec fn first_answered<T>(answers: Seq<Option<T>>, i: int) -> bool {
    &&& 0 <= i < answers.len()
    &&& answers[i] is Some
    &&& forall|j: int| 0 <= j < i ==> (#[trigger] answers[j]) is None
}

/// The hook policy shared by resolve and load: given each registered plugin's reply,
/// in registration order, the first plugin that answers wins. `None` means no plugin
/// answered and the builtin resolver or loader decides.
pub fn first_answer<T>(replies: Vec<Option<T>>) -> (r: Option<T>)
    ensures
        match r {
            Some(a) => exists|i: int| first_answered(replies@, i) && replies@[i] == Some(a),
            None => forall|j: int| 0 <= j < replies@.len() ==> (#[trigger] replies@[j]) is None,
        },
{
    let ghost all = replies@;
    let mut answers = replies;
    assert(answers@ == all);
    let mut i: usize = 0;
    while i < answers.len()
        invariant
            answers@ == all,
            all == replies@,
            i <= all.len(),
            forall|j: int| 0 <= j < i ==> (#[trigger] all[j]) is None,
        decreases all.len() - i,
    {
        if answers[i].is_some() {
            let a = answers.swap_remove(i);
            proof {
                assert(first_answered(all, i as int));
                assert(all[i as int] == a);


            }
            return a;
        }
        i = i + 1;
    }
    None
}

/// Tracks the compilation-created hooks of the registered plugins: a new compilation
/// may be scanned only once every plugin's hook has completed.
pub struct PluginDriver {
    pub plugin_count: usize,
    pub hooks_completed: usize,
}

impl PluginDriver {
    pub fn new(plugin_count: usize) -> (r: PluginDriver)
        ensures
            r.plugin_count == plugin_count,
            r.hooks_completed == plugin_count,
    {
        PluginDriver { plugin_count, hooks_completed: plugin_count }
    }

    /// A new compilation was created: every plugin's hook is now owed.
    pub fn compilation_created(&mut self)
        ensures
            final(self).plugin_count == old(self).plugin_count,
            final(self).hooks_completed == 0,
    {
        self.hooks_completed = 0;
    }

    /// One more plugin's hook replied.
    pub fn hook_completed(&mut self)
        requires
            old(self).hooks_completed < old(self).plugin_count,
        ensures
            final(self).plugin_count == old(self).plugin_count,
            final(self).hooks_completed == old(self).hooks_completed + 1,
    {
        self.hooks_completed = self.hooks_completed + 1;
    }

    /// Whether scanning may start.
    pub fn ready_to_scan(&self) -> (r: bool)
        ensures
            r == (self.hooks_completed >= self.plugin_count),
    {
        self.hooks_completed >= self.plugin_count
    }

    /// The path to resolve `request` to: the first plugin's override, else `request`.
    pub fn resolve_request(&self, request: String, replies: Vec<Option<String>>) -> (r: String)
        ensures
            (forall|j: int| 0 <= j < replies@.len() ==> (#[trigger] replies@[j]) is None) ==> r@ == request@,
            (exists|i: int| first_answered(replies@, i)) ==> exists|i: int|
                first_answered(replies@, i) && replies@[i] == Some(r),
    {
        match first_answer(replies) {
            Some(path) => path,
            None => request,
        }
    }
}

} // verus!
