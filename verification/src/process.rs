//! The rows of the table, and the figures above it.

use crate::double::{usual, Double, Dyadic};
use vstd::prelude::*;

verus! {

/// A process or a thread.
pub struct ProcInfo {
    pub pid: i32,
    pub tid: i32,
    pub ppid: i32,
    pub user: String,
    pub cmd: String,
    pub full_cmd: String,
    pub pss_kb: u64,
    pub uss_kb: u64,
    pub rss_kb: u64,
    pub swap_kb: u64,
    pub state: char,
    pub cpu_percent: Double,
    pub is_thread: bool,
    pub is_kernel: bool,
    pub tree_depth: u8,
    pub tree_mask: u32,
    pub is_last_child: bool,
}

/// What a row says.
#[verifier::ext_equal]
pub struct Row {
    pub pid: i32,
    pub tid: i32,
    pub ppid: i32,
    pub user: Seq<char>,
    pub cmd: Seq<char>,
    pub full_cmd: Seq<char>,
    pub pss_kb: u64,
    pub uss_kb: u64,
    pub rss_kb: u64,
    pub swap_kb: u64,
    pub state: char,
    pub cpu_percent: Dyadic,
    pub is_thread: bool,
    pub is_kernel: bool,
    pub tree_depth: u8,
    pub tree_mask: u32,
    pub is_last_child: bool,
}

impl View for ProcInfo {
    type V = Row;

    open spec fn view(&self) -> Row {
        Row {
            pid: self.pid,
            tid: self.tid,
            ppid: self.ppid,
            user: self.user@,
            cmd: self.cmd@,
            full_cmd: self.full_cmd@,
            pss_kb: self.pss_kb,
            uss_kb: self.uss_kb,
            rss_kb: self.rss_kb,
            swap_kb: self.swap_kb,
            state: self.state,
            cpu_percent: self.cpu_percent@,
            is_thread: self.is_thread,
            is_kernel: self.is_kernel,
            tree_depth: self.tree_depth,
            tree_mask: self.tree_mask,
            is_last_child: self.is_last_child,
        }
    }
}

/// What rows say.
pub open spec fn rows_say(rows: Seq<ProcInfo>) -> Seq<Row> {
    rows.map_values(|p: ProcInfo| p@)
}

impl ProcInfo {
    /// The processor share is a normalised number of ordinary size.
    pub open spec fn wf(self) -> bool {
        self.cpu_percent.within(usual())
    }

    /// The number by which the row is signalled: that of the thread or that of
    /// the process.
    pub open spec fn id(self) -> i32 {
        if self.is_thread {
            self.tid
        } else {
            self.pid
        }
    }

    /// The row at a place in the tree.
    pub open spec fn placed(self, depth: u8, mask: u32, last: bool) -> ProcInfo {
        ProcInfo { tree_depth: depth, tree_mask: mask, is_last_child: last, ..self }
    }

    /// The number by which the row is signalled.
    pub fn signal_id(&self) -> (r: i32)
        ensures
            r == self.id(),
    {
        if self.is_thread {
            self.tid
        } else {
            self.pid
        }
    }
}

impl Clone for ProcInfo {
    fn clone(&self) -> (r: ProcInfo)
        ensures
            r == *self,
    {
        ProcInfo {
            pid: self.pid,
            tid: self.tid,
            ppid: self.ppid,
            user: self.user.clone(),
            cmd: self.cmd.clone(),
            full_cmd: self.full_cmd.clone(),
            pss_kb: self.pss_kb,
            uss_kb: self.uss_kb,
            rss_kb: self.rss_kb,
            swap_kb: self.swap_kb,
            state: self.state,
            cpu_percent: self.cpu_percent,
            is_thread: self.is_thread,
            is_kernel: self.is_kernel,
            tree_depth: self.tree_depth,
            tree_mask: self.tree_mask,
            is_last_child: self.is_last_child,
        }
    }
}

/// Whether all rows are well-formed.
pub open spec fn rows_wf(rows: Seq<ProcInfo>) -> bool {
    forall|i: int| 0 <= i < rows.len() ==> (#[trigger] rows[i]).wf()
}

/// The figures of the machine as a whole.
pub struct SystemInfo {
    pub cpu_percent: Double,
    pub mem_percent: Double,
    pub swap_percent: Double,
    pub load: String,
    pub uptime: String,
    pub tasks: String,
}

/// What the figures say.
#[verifier::ext_equal]
pub struct Figures {
    pub cpu_percent: Dyadic,
    pub mem_percent: Dyadic,
    pub swap_percent: Dyadic,
    pub load: Seq<char>,
    pub uptime: Seq<char>,
    pub tasks: Seq<char>,
}

impl View for SystemInfo {
    type V = Figures;

    open spec fn view(&self) -> Figures {
        Figures {
            cpu_percent: self.cpu_percent@,
            mem_percent: self.mem_percent@,
            swap_percent: self.swap_percent@,
            load: self.load@,
            uptime: self.uptime@,
            tasks: self.tasks@,
        }
    }
}

impl SystemInfo {
    /// The percentages are normalised numbers of ordinary size.
    pub open spec fn wf(self) -> bool {
        self.cpu_percent.within(usual()) && self.mem_percent.within(usual())
            && self.swap_percent.within(usual())
    }
}

impl Clone for SystemInfo {
    fn clone(&self) -> (r: SystemInfo)
        ensures
            r == *self,
    {
        SystemInfo {
            cpu_percent: self.cpu_percent,
            mem_percent: self.mem_percent,
            swap_percent: self.swap_percent,
            load: self.load.clone(),
            uptime: self.uptime.clone(),
            tasks: self.tasks.clone(),
        }
    }
}

impl Default for SystemInfo {
    fn default() -> (r: SystemInfo)
        ensures
            r.cpu_percent == (Double { mant: 0, exp: 0 }),
            r.mem_percent == (Double { mant: 0, exp: 0 }),
            r.swap_percent == (Double { mant: 0, exp: 0 }),
            r.load@.len() == 0,
            r.uptime@.len() == 0,
            r.tasks@.len() == 0,
    {
        SystemInfo {
            cpu_percent: Double { mant: 0, exp: 0 },
            mem_percent: Double { mant: 0, exp: 0 },
            swap_percent: Double { mant: 0, exp: 0 },
            load: String::new(),
            uptime: String::new(),
            tasks: String::new(),
        }
    }
}

} // verus!
