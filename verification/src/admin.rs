use vstd::prelude::*;
use crate::queue::Queue;
use crate::types::{Caller, Error};
use crate::weight::Weight;

verus! {

/// Every state component but the configuration and the two flags is
/// untouched.
pub open spec fn admin_frame(pre: Queue, post: Queue) -> bool {
    &&& post.origins@ == pre.origins@
    &&& post.overweight@ == pre.overweight@
    &&& post.next_overweight_index == pre.next_overweight_index
    &&& post.inbound@ == pre.inbound@
    &&& post.events@ == pre.events@
    &&& post.defer_duration == pre.defer_duration
    &&& post.max_messages_per_bucket == pre.max_messages_per_bucket
    &&& post.max_buckets_per_origin == pre.max_buckets_per_origin
    &&& post.max_buckets_processed == pre.max_buckets_processed
}

/// The flags and override are untouched.
pub open spec fn flags_unchanged(pre: Queue, post: Queue) -> bool {
    &&& post.queue_suspended == pre.queue_suspended
    &&& post.deferred_suspended == pre.deferred_suspended
    &&& post.defer_all_by == pre.defer_all_by
}

impl Queue {
    /// Sets the held-page count at which senders should be told to suspend.
    /// Privileged; any other caller is rejected and nothing changes.
    pub fn update_suspend_threshold(&mut self, caller: Caller, new: u32) -> (r: Result<(), Error>)
        requires
            old(self).wf(),
        ensures
            final(self).wf(),
            admin_frame(*old(self), *final(self)),
            flags_unchanged(*old(self), *final(self)),
            caller != Caller::Root ==> r == Err::<(), Error>(Error::BadOrigin) && final(self).config
                == old(self).config,
            caller == Caller::Root ==> r == Ok::<(), Error>(()) && final(self).config == (
            crate::types::QueueConfigData { suspend_threshold: new, ..old(self).config }),
    {
        if caller != Caller::Root {
            return Err(Error::BadOrigin);
        }
        self.config.suspend_threshold = new;
        Ok(())
    }

    /// Sets the held-page count beyond which further pages are dropped.
    /// Privileged; any other caller is rejected and nothing changes.
    pub fn update_drop_threshold(&mut self, caller: Caller, new: u32) -> (r: Result<(), Error>)
        requires
            old(self).wf(),
        ensures
            final(self).wf(),
            admin_frame(*old(self), *final(self)),
            flags_unchanged(*old(self), *final(self)),
            caller != Caller::Root ==> r == Err::<(), Error>(Error::BadOrigin) && final(self).config
                == old(self).config,
            caller == Caller::Root ==> r == Ok::<(), Error>(()) && final(self).config == (
            crate::types::QueueConfigData { drop_threshold: new, ..old(self).config }),
    {
        if caller != Caller::Root {
            return Err(Error::BadOrigin);
        }
        self.config.drop_threshold = new;
        Ok(())
    }

    /// Sets the held-page count at which senders may resume. Privileged; any
    /// other caller is rejected and nothing changes.
    pub fn update_resume_threshold(&mut self, caller: Caller, new: u32) -> (r: Result<(), Error>)
        requires
            old(self).wf(),
        ensures
            final(self).wf(),
            admin_frame(*old(self), *final(self)),
            flags_unchanged(*old(self), *final(self)),
            caller != Caller::Root ==> r == Err::<(), Error>(Error::BadOrigin) && final(self).config
                == old(self).config,
            caller == Caller::Root ==> r == Ok::<(), Error>(()) && final(self).config == (
            crate::types::QueueConfigData { resume_threshold: new, ..old(self).config }),
    {
        if caller != Caller::Root {
            return Err(Error::BadOrigin);
        }
        self.config.resume_threshold = new;
        Ok(())
    }

    /// Sets the weight below which inbound servicing is not attempted.
    /// Privileged; any other caller is rejected and nothing changes.
    pub fn update_threshold_weight(&mut self, caller: Caller, new: Weight) -> (r: Result<
        (),
        Error,
    >)
        requires
            old(self).wf(),
        ensures
            final(self).wf(),
            admin_frame(*old(self), *final(self)),
            flags_unchanged(*old(self), *final(self)),
            caller != Caller::Root ==> r == Err::<(), Error>(Error::BadOrigin) && final(self).config
                == old(self).config,
            caller == Caller::Root ==> r == Ok::<(), Error>(()) && final(self).config == (
            crate::types::QueueConfigData { threshold_weight: new, ..old(self).config }),
    {
        if caller != Caller::Root {
            return Err(Error::BadOrigin);
        }
        self.config.threshold_weight = new;
        Ok(())
    }

    /// Sets the decay divisor for repeated inbound servicing. Privileged; any
    /// other caller is rejected and nothing changes.
    pub fn update_weight_restrict_decay(&mut self, caller: Caller, new: Weight) -> (r: Result<
        (),
        Error,
    >)
        requires
            old(self).wf(),
        ensures
            final(self).wf(),
            admin_frame(*old(self), *final(self)),
            flags_unchanged(*old(self), *final(self)),
            caller != Caller::Root ==> r == Err::<(), Error>(Error::BadOrigin) && final(self).config
                == old(self).config,
            caller == Caller::Root ==> r == Ok::<(), Error>(()) && final(self).config == (
            crate::types::QueueConfigData { weight_restrict_decay: new, ..old(self).config }),
    {
        if caller != Caller::Root {
            return Err(Error::BadOrigin);
        }
        self.config.weight_restrict_decay = new;
        Ok(())
    }

    /// Sets the per-message execution ceiling. Privileged; any other caller is
    /// rejected and nothing changes.
    pub fn update_xcmp_max_individual_weight(&mut self, caller: Caller, new: Weight) -> (r: Result<
        (),
        Error,
    >)
        requires
            old(self).wf(),
        ensures
            final(self).wf(),
            admin_frame(*old(self), *final(self)),
            flags_unchanged(*old(self), *final(self)),
            caller != Caller::Root ==> r == Err::<(), Error>(Error::BadOrigin) && final(self).config
                == old(self).config,
            caller == Caller::Root ==> r == Ok::<(), Error>(()) && final(self).config == (
            crate::types::QueueConfigData { xcmp_max_individual_weight: new, ..old(self).config }),
    {
        if caller != Caller::Root {
            return Err(Error::BadOrigin);
        }
        self.config.xcmp_max_individual_weight = new;
        Ok(())
    }

    /// Halts the ingress fast path (and, with it, deferred servicing).
    /// Privileged; any other caller is rejected and nothing changes.
    pub fn suspend_xcm_execution(&mut self, caller: Caller) -> (r: Result<(), Error>)
        requires
            old(self).wf(),
        ensures
            final(self).wf(),
            admin_frame(*old(self), *final(self)),
            final(self).config == old(self).config,
            final(self).deferred_suspended == old(self).deferred_suspended,
            final(self).defer_all_by == old(self).defer_all_by,
            caller != Caller::Root ==> r == Err::<(), Error>(Error::BadOrigin) && final(self).queue_suspended == old(self).queue_suspended,
            caller == Caller::Root ==> r == Ok::<(), Error>(()) && final(self).queue_suspended,
    {
        if caller != Caller::Root {
            return Err(Error::BadOrigin);
        }
        self.queue_suspended = true;
        Ok(())
    }

    /// Lifts the ingress halt. Privileged; any other caller is rejected and
    /// nothing changes.
    pub fn resume_xcm_execution(&mut self, caller: Caller) -> (r: Result<(), Error>)
        requires
            old(self).wf(),
        ensures
            final(self).wf(),
            admin_frame(*old(self), *final(self)),
            final(self).config == old(self).config,
            final(self).deferred_suspended == old(self).deferred_suspended,
            final(self).defer_all_by == old(self).defer_all_by,
            caller != Caller::Root ==> r == Err::<(), Error>(Error::BadOrigin) && final(self).queue_suspended == old(self).queue_suspended,
            caller == Caller::Root ==> r == Ok::<(), Error>(()) && !final(self).queue_suspended,
    {
        if caller != Caller::Root {
            return Err(Error::BadOrigin);
        }
        self.queue_suspended = false;
        Ok(())
    }

    /// Halts deferred servicing alone. Privileged; any other caller is
    /// rejected and nothing changes.
    pub fn suspend_deferred_execution(&mut self, caller: Caller) -> (r: Result<(), Error>)
        requires
            old(self).wf(),
        ensures
            final(self).wf(),
            admin_frame(*old(self), *final(self)),
            final(self).config == old(self).config,
            final(self).queue_suspended == old(self).queue_suspended,
            final(self).defer_all_by == old(self).defer_all_by,
            caller != Caller::Root ==> r == Err::<(), Error>(Error::BadOrigin) && final(self).deferred_suspended == old(self).deferred_suspended,
            caller == Caller::Root ==> r == Ok::<(), Error>(()) && final(self).deferred_suspended,
    {
        if caller != Caller::Root {
            return Err(Error::BadOrigin);
        }
        self.deferred_suspended = true;
        Ok(())
    }

    /// Lifts the deferred-servicing halt. Privileged; any other caller is
    /// rejected and nothing changes.
    pub fn resume_deferred_execution(&mut self, caller: Caller) -> (r: Result<(), Error>)
        requires
            old(self).wf(),
        ensures
            final(self).wf(),
            admin_frame(*old(self), *final(self)),
            final(self).config == old(self).config,
            final(self).queue_suspended == old(self).queue_suspended,
            final(self).defer_all_by == old(self).defer_all_by,
            caller != Caller::Root ==> r == Err::<(), Error>(Error::BadOrigin) && final(self).deferred_suspended == old(self).deferred_suspended,
            caller == Caller::Root ==> r == Ok::<(), Error>(()) && !final(self).deferred_suspended,
    {
        if caller != Caller::Root {
            return Err(Error::BadOrigin);
        }
        self.deferred_suspended = false;
        Ok(())
    }

    /// Sets or clears the emergency override that defers every inbound
    /// message by a fixed delay. Privileged; any other caller is rejected and
    /// nothing changes.
    pub fn set_defer_all_by(&mut self, caller: Caller, delay: Option<u32>) -> (r: Result<
        (),
        Error,
    >)
        requires
            old(self).wf(),
        ensures
            final(self).wf(),
            admin_frame(*old(self), *final(self)),
            final(self).config == old(self).config,
            final(self).queue_suspended == old(self).queue_suspended,
            final(self).deferred_suspended == old(self).deferred_suspended,
            caller != Caller::Root ==> r == Err::<(), Error>(Error::BadOrigin) && final(self).defer_all_by == old(self).defer_all_by,
            caller == Caller::Root ==> r == Ok::<(), Error>(()) && final(self).defer_all_by
                == delay,
    {
        if caller != Caller::Root {
            return Err(Error::BadOrigin);
        }
        self.defer_all_by = delay;
        Ok(())
    }
}

} // verus!
