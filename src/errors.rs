use vstd::prelude::*;
use vstd::string::StringExecFns;

verus! {

/// Most error messages kept; the oldest leaves first.
pub const ERROR_LOG_CAPACITY: usize = 10;

/// One failed background task: its name, what went wrong and when (seconds
/// since the epoch).
#[derive(Debug, Clone)]
pub struct ErrorMessage {
    pub category: String,
    pub message: String,
    pub created_at: u64,
}

/// The latest failures, oldest first, at most `ERROR_LOG_CAPACITY`.
pub struct ErrorLog {
    entries: Vec<ErrorMessage>,
}

impl ErrorLog {
    pub closed spec fn view(&self) -> Seq<ErrorMessage> {
        self.entries@
    }

    pub open spec fn wf(&self) -> bool {
        self@.len() <= ERROR_LOG_CAPACITY
    }

    pub fn new() -> (r: ErrorLog)
        ensures
            r.wf(),
            r@ == Seq::<ErrorMessage>::empty(),
    {
        ErrorLog { entries: Vec::new() }
    }

    pub fn len(&self) -> (r: usize)
        ensures
            r == self@.len(),
    {
        self.entries.len()
    }

    /// Records a failure; when the log is full the oldest entry leaves.
    pub fn add(&mut self, category: String, message: String, now: u64)
        requires
            old(self).wf(),
        ensures
            final(self).wf(),
            final(self)@ == (if old(self)@.len() >= ERROR_LOG_CAPACITY {
                old(self)@.drop_first()
            } else {
                old(self)@
            }).push(ErrorMessage { category, message, created_at: now }),
    {
        if self.entries.len() >= ERROR_LOG_CAPACITY {
            self.entries.remove(0);
        }
        self.entries.push(ErrorMessage { category, message, created_at: now });
        proof {
            assert(self@ =~= (if old(self)@.len() >= ERROR_LOG_CAPACITY {
                old(self)@.drop_first()
            } else {
                old(self)@
            }).push(ErrorMessage { category, message, created_at: now }));
        }
    }

    /// The latest failure, when it is not older than `since`, the time of the
    /// last operation the user started: an error stays shown until a newer
    /// operation begins.
    pub fn latest_since(&self, since: u64) -> (r: Option<&ErrorMessage>)
        ensures
            match r {
                Some(m) => self@.len() > 0 && *m == self@.last() && m.created_at >= since,
                None => self@.len() == 0 || self@.last().created_at < since,
            },
    {
        let n = self.entries.len();
        if n == 0 {
            return None;
        }
        let last = &self.entries[n - 1];
        if last.created_at >= since {
            Some(last)
        } else {
            None
        }
    }
}

/// The background operations of a server state; each error is logged under
/// its task's name.
#[derive(Debug, Clone, Copy, PartialEq, Eq, Structural)]
pub enum ServerTask {
    RefreshRedisInfo,
    SelectServer,
    RemoveServer,
    UpdateServerQueryMode,
    UpdateServerSoftWrap,
    UpdateOrInsertServer,
    FillKeyTypes,
    Selectkey,
    DeleteKey,
    ScanKeys,
    ScanPrefix,
    AddKey,
    UpdateKeyTtl,
    RemoveListValue,
    UpdateListValue,
    PushListValue,
    LoadMoreValue,
    AddSetValue,
    RemoveSetValue,
    AddZsetValue,
    RemoveZsetValue,
    RemoveHashValue,
    SaveValue,
}

pub open spec fn task_name(t: ServerTask) -> Seq<char> {
    match t {
        ServerTask::RefreshRedisInfo => "refresh_redis_info"@,
        ServerTask::SelectServer => "select_server"@,
        ServerTask::RemoveServer => "remove_server"@,
        ServerTask::UpdateOrInsertServer => "update_or_insert_server"@,
        ServerTask::FillKeyTypes => "fill_key_types"@,
        ServerTask::Selectkey => "select_key"@,
        ServerTask::DeleteKey => "delete_key"@,
        ServerTask::ScanKeys => "scan_keys"@,
        ServerTask::ScanPrefix => "scan_prefix"@,
        ServerTask::AddKey => "add_key"@,
        ServerTask::UpdateKeyTtl => "update_key_ttl"@,
        ServerTask::RemoveListValue => "remove_list_value"@,
        ServerTask::UpdateListValue => "update_list_value"@,
        ServerTask::LoadMoreValue => "load_more_value"@,
        ServerTask::SaveValue => "save_value"@,
        ServerTask::UpdateServerQueryMode => "update_server_query_mode"@,
        ServerTask::UpdateServerSoftWrap => "update_server_soft_wrap"@,
        ServerTask::PushListValue => "push_list_value"@,
        ServerTask::AddSetValue => "add_set_value"@,
        ServerTask::RemoveSetValue => "remove_set_value"@,
        ServerTask::AddZsetValue => "add_zset_value"@,
        ServerTask::RemoveZsetValue => "remove_zset_value"@,
        ServerTask::RemoveHashValue => "remove_hash_value"@,
    }
}

impl ServerTask {
    /// The task's name, used as the category of its errors.
    pub fn as_str(&self) -> (r: &'static str)
        ensures
            r@ == task_name(*self),
    {
        match self {
            ServerTask::RefreshRedisInfo => "refresh_redis_info",
            ServerTask::SelectServer => "select_server",
            ServerTask::RemoveServer => "remove_server",
            ServerTask::UpdateOrInsertServer => "update_or_insert_server",
            ServerTask::FillKeyTypes => "fill_key_types",
            ServerTask::Selectkey => "select_key",
            ServerTask::DeleteKey => "delete_key",
            ServerTask::ScanKeys => "scan_keys",
            ServerTask::ScanPrefix => "scan_prefix",
            ServerTask::AddKey => "add_key",
            ServerTask::UpdateKeyTtl => "update_key_ttl",
            ServerTask::RemoveListValue => "remove_list_value",
            ServerTask::UpdateListValue => "update_list_value",
            ServerTask::LoadMoreValue => "load_more_value",
            ServerTask::SaveValue => "save_value",
            ServerTask::UpdateServerQueryMode => "update_server_query_mode",
            ServerTask::UpdateServerSoftWrap => "update_server_soft_wrap",
            ServerTask::PushListValue => "push_list_value",
            ServerTask::AddSetValue => "add_set_value",
            ServerTask::RemoveSetValue => "remove_set_value",
            ServerTask::AddZsetValue => "add_zset_value",
            ServerTask::RemoveZsetValue => "remove_zset_value",
            ServerTask::RemoveHashValue => "remove_hash_value",
        }
    }
}

/// What the dispatcher does when a background task ends: a failure is
/// logged under the task's name at `now`; a success leaves the log alone.
/// The task's own completion runs in either case.
pub fn record_task_result(log: &mut ErrorLog, task: ServerTask, error: Option<String>, now: u64)
    requires
        old(log).wf(),
    ensures
        final(log).wf(),
        match error {
            Some(e) => final(log)@.len() > 0 && final(log)@.last().category@ == task_name(task)
                && final(log)@.last().message == e && final(log)@.last().created_at == now
                && final(log)@.drop_last() == (if old(log)@.len() >= ERROR_LOG_CAPACITY {
                old(log)@.drop_first()
            } else {
                old(log)@
            }),
            None => final(log)@ == old(log)@,
        },
{
    if let Some(e) = error {
        log.add(String::from_str(task.as_str()), e, now);
    }
}

} // verus!
