//! The checks over code tables. Each takes the entries of a table and
//! returns what it reports: entries, or codes.


pub mod p_format;
pub mod p_on_s_anomaly;
pub mod p_on_s_fj_incomplete;
pub mod p_redundancy;
pub mod p_vacancy;
pub mod s_fj_absence;
pub mod s_format;
pub mod s_jm_absence;
pub mod s_jm_collision;
pub mod s_jm_anomaly;
pub mod s_jm_redundancy;
pub mod s_qm_orphan;
pub mod s_jm_vacancy;
pub mod s_redundancy;
pub mod s_xm_conflict;
pub mod s_xm_consistency;
